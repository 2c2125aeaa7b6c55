//! Laws of address lookups: which string and which function an address of the
//! firmware image stands for.

use crate::elf_resolv::{
    agreed, all_read, elf_image, elf_symbol_of, image, image_kind, image_of, is_listed, is_noload,
    last_holding, mach_image, mach_section_of, mach_sections, mach_sections_of, mach_symbol_of,
    mach_symbols_of, next_above, nul_from, searches, section_of, section_order_does_not_matter,
    sections_of, symbol_holds, symbol_key, with_elf_symbols, with_symbol, ElfV, ImageKind,
    MachSectionV, MachSymbolV, RawSymbolV, ResolvedSymbolV, SectionHeaderV, SectionV, SymbolV,
    Which,
};
use crate::load_commands::entry_fits;
use crate::sorting::{sorted, sorted_is_a_sorted_permutation};
use vstd::prelude::*;
use vstd::string::*;
use vstd::utf8::{
    decode_first_scalar, decode_utf8, encode_utf8, encode_utf8_decode_utf8,
    encode_utf8_valid_utf8, pop_first_scalar, valid_utf8,
};

verus! {

// ---- Strings ----

/// True if the bytes of the text `t` stand at `addr` in a section, with a NUL byte or
/// the end of the data behind them.
pub open spec fn holds_text(sec: SectionV, addr: u32, t: Seq<char>) -> bool {
    let off = addr - sec.addr;
    let bytes = encode_utf8(t);
    &&& sec.addr <= addr
    &&& t.len() > 0
    &&& !t.contains('\0')
    &&& off + bytes.len() <= sec.data.len()
    &&& sec.data.subrange(off, off + bytes.len()) == bytes
    &&& off + bytes.len() == sec.data.len() || sec.data[off + bytes.len()] == 0
}

/// True if `addr` lies in the address range of a section.
pub open spec fn covers(sec: SectionV, addr: u32) -> bool {
    sec.addr <= addr && addr < sec.end
}

proof fn lemma_no_zero_byte(bytes: Seq<u8>)
    requires
        valid_utf8(bytes),
        !decode_utf8(bytes).contains('\0'),
    ensures
        forall|k: int| 0 <= k < bytes.len() ==> #[trigger] bytes[k] != 0,
    decreases bytes.len(),
{
    if bytes.len() > 0 {
        let rest = pop_first_scalar(bytes);
        let first = decode_first_scalar(bytes) as char;
        let t = decode_utf8(bytes);
        assert(t == seq![first] + decode_utf8(rest));
        assert(t[0] == first);
        assert(t.contains(first));
        assert forall|c: char| decode_utf8(rest).contains(c) implies t.contains(c) by {
            let k = choose|k: int| 0 <= k < decode_utf8(rest).len() && decode_utf8(rest)[k] == c;
            assert(t[k + 1] == c);
        }
        lemma_no_zero_byte(rest);
        let n = bytes.len() - rest.len();
        assert(0u8 & 0x7f == 0) by (bit_vector);
        assert(bytes[0] != 0);
        assert forall|k: int| 0 <= k < bytes.len() implies #[trigger] bytes[k] != 0 by {
            if k >= n {
                assert(bytes[k] == rest[k - n]);
            }
        }
    }
}

proof fn lemma_nul_behind(s: Seq<u8>, i: int, j: int)
    requires
        0 <= i <= j <= s.len(),
        forall|k: int| i <= k < j ==> #[trigger] s[k] != 0,
        j == s.len() || s[j] == 0,
    ensures
        nul_from(s, i) == j,
    decreases j - i,
{
    if i < j {
        assert(s[i] != 0);
        lemma_nul_behind(s, i + 1, j);
    }
}

/// A string is read whole: the text whose bytes stand at the address, up to the NUL
/// byte or the end of the section, is what a lookup in the section gives.
pub proof fn string_is_read_whole(sec: SectionV, addr: u32, t: Seq<char>)
    requires
        holds_text(sec, addr, t),
    ensures
        sec.cstr(addr) == Some(t),
{
    let off = addr - sec.addr;
    let bytes = encode_utf8(t);
    encode_utf8_valid_utf8(t);
    encode_utf8_decode_utf8(t);
    lemma_no_zero_byte(bytes);
    let end = off + bytes.len();
    assert forall|k: int| off <= k < end implies #[trigger] sec.data[k] != 0 by {
        assert(sec.data.subrange(off, end)[k - off] == bytes[k - off]);
    }
    lemma_nul_behind(sec.data, off, end);
    if bytes.len() == 0 {
        assert(decode_utf8(bytes).len() == 0);
    }
    assert(sec.data[off] != 0);
}

/// An empty string, and one that would start behind the data, is none.
pub proof fn empty_strings_are_not_read(sec: SectionV, addr: u32)
    requires
        sec.addr <= addr,
        addr - sec.addr >= sec.data.len() || sec.data[addr - sec.addr] == 0,
    ensures
        sec.cstr(addr) is None,
{
}

proof fn lemma_agreed(sections: Seq<SectionV>, addr: u32, which: Which, t: Seq<char>)
    requires
        all_read(sections, addr, which, t),
    ensures
        agreed(sections, addr, which) == Some(t),
{
    let u = choose|u: Seq<char>| all_read(sections, addr, which, u);
    let k = choose|k: int|
        0 <= k < sections.len() && (#[trigger] sections[k]).contains(addr) && searches(
            which,
            sections[k].name,
        );
    assert(sections[k].cstr(addr) == Some(t));
    assert(sections[k].cstr(addr) == Some(u));
}

proof fn lemma_found(
    sections: Seq<SectionV>,
    symbols: Seq<SymbolV>,
    which: Which,
    i: int,
    addr: u32,
    t: Seq<char>,
)
    requires
        0 <= i < sections.len(),
        covers(sections[i], addr),
        searches(which, sections[i].name),
        forall|k: int|
            0 <= k < sections.len() && covers(#[trigger] sections[k], addr) && searches(
                which,
                sections[k].name,
            ) ==> holds_text(sections[k], addr, t),
    ensures
        image(sections, symbols).cstr(addr, which) == Some(t),
{
    assert(sections[i].contains(addr));
    assert forall|k: int|
        0 <= k < sections.len() && (#[trigger] sections[k]).contains(addr) && searches(
            which,
            sections[k].name,
        ) implies sections[k].cstr(addr) == Some(t) by {
        assert(covers(sections[k], addr));
        string_is_read_whole(sections[k], addr, t);
    }
    lemma_agreed(sections, addr, which, t);
    section_order_does_not_matter(sections, addr, which);
}

/// A string that every section at its address holds is found: as any string, as a
/// format string, and as a tag if it stands in an ordinary section.
pub proof fn string_of_the_image_is_found(
    sections: Seq<SectionV>,
    symbols: Seq<SymbolV>,
    i: int,
    addr: u32,
    t: Seq<char>,
)
    requires
        0 <= i < sections.len(),
        covers(sections[i], addr),
        forall|k: int|
            0 <= k < sections.len() && covers(#[trigger] sections[k], addr) ==> holds_text(
                sections[k],
                addr,
                t,
            ),
    ensures
        image(sections, symbols).cstr(addr, Which::Any) == Some(t),
        image(sections, symbols).format(addr) == Some(t),
        !is_noload(sections[i].name) ==> image(sections, symbols).tag(addr) == Some(t),
{
    lemma_found(sections, symbols, Which::Any, i, addr, t);
    if !is_noload(sections[i].name) {
        lemma_found(sections, symbols, Which::Ordinary, i, addr, t);
    }
    let elf = image(sections, symbols);
    if elf.cstr(addr, Which::Noload) is Some {
        section_order_does_not_matter(sections, addr, Which::Noload);
        let u = elf.cstr(addr, Which::Noload)->0;
        assert(all_read(sections, addr, Which::Noload, u));
        let k = choose|k: int|
            0 <= k < sections.len() && (#[trigger] sections[k]).contains(addr) && searches(
                Which::Noload,
                sections[k].name,
            );
        assert(covers(sections[k], addr));
        string_is_read_whole(sections[k], addr, t);
    }
}

/// A format string is looked up in the no-load sections first: what an ordinary section
/// holds at the same address does not matter.
pub proof fn formats_come_from_noload_sections(
    sections: Seq<SectionV>,
    symbols: Seq<SymbolV>,
    i: int,
    addr: u32,
    t: Seq<char>,
)
    requires
        0 <= i < sections.len(),
        covers(sections[i], addr),
        is_noload(sections[i].name),
        forall|k: int|
            0 <= k < sections.len() && covers(#[trigger] sections[k], addr) && is_noload(
                sections[k].name,
            ) ==> holds_text(sections[k], addr, t),
    ensures
        image(sections, symbols).format(addr) == Some(t),
{
    lemma_found(sections, symbols, Which::Noload, i, addr, t);
}

/// A tag is looked up in the ordinary sections: what a no-load section holds at the same
/// address does not matter.
pub proof fn tags_come_from_ordinary_sections(
    sections: Seq<SectionV>,
    symbols: Seq<SymbolV>,
    i: int,
    addr: u32,
    t: Seq<char>,
)
    requires
        0 <= i < sections.len(),
        covers(sections[i], addr),
        !is_noload(sections[i].name),
        forall|k: int|
            0 <= k < sections.len() && covers(#[trigger] sections[k], addr) && !is_noload(
                sections[k].name,
            ) ==> holds_text(sections[k], addr, t),
    ensures
        image(sections, symbols).tag(addr) == Some(t),
{
    lemma_found(sections, symbols, Which::Ordinary, i, addr, t);
}

proof fn lemma_differ(
    sections: Seq<SectionV>,
    symbols: Seq<SymbolV>,
    which: Which,
    i: int,
    j: int,
    addr: u32,
    t: Seq<char>,
    u: Seq<char>,
)
    requires
        0 <= i < sections.len(),
        0 <= j < sections.len(),
        covers(sections[i], addr) && holds_text(sections[i], addr, t),
        covers(sections[j], addr) && holds_text(sections[j], addr, u),
        searches(which, sections[i].name) && searches(which, sections[j].name),
        t != u,
    ensures
        image(sections, symbols).cstr(addr, which) is None,
{
    string_is_read_whole(sections[i], addr, t);
    string_is_read_whole(sections[j], addr, u);
    section_order_does_not_matter(sections, addr, which);
    assert(sections[i].contains(addr) && sections[j].contains(addr));
}

/// Where two sections hold different strings at one address, none is found; two such
/// sections of one kind also hide it as a tag or as a format string.
pub proof fn different_strings_are_ambiguous(
    sections: Seq<SectionV>,
    symbols: Seq<SymbolV>,
    i: int,
    j: int,
    addr: u32,
    t: Seq<char>,
    u: Seq<char>,
)
    requires
        0 <= i < sections.len(),
        0 <= j < sections.len(),
        covers(sections[i], addr) && holds_text(sections[i], addr, t),
        covers(sections[j], addr) && holds_text(sections[j], addr, u),
        t != u,
    ensures
        image(sections, symbols).cstr(addr, Which::Any) is None,
        !is_noload(sections[i].name) && !is_noload(sections[j].name) ==> image(
            sections,
            symbols,
        ).tag(addr) is None,
        is_noload(sections[i].name) && is_noload(sections[j].name) ==> image(
            sections,
            symbols,
        ).format(addr) is None,
{
    lemma_differ(sections, symbols, Which::Any, i, j, addr, t, u);
    if !is_noload(sections[i].name) && !is_noload(sections[j].name) {
        lemma_differ(sections, symbols, Which::Ordinary, i, j, addr, t, u);
    }
    if is_noload(sections[i].name) && is_noload(sections[j].name) {
        lemma_differ(sections, symbols, Which::Noload, i, j, addr, t, u);
    }
}

/// An address outside every section stands for no string.
pub proof fn unmapped_addresses_hold_no_string(
    sections: Seq<SectionV>,
    symbols: Seq<SymbolV>,
    addr: u32,
)
    requires
        forall|k: int| 0 <= k < sections.len() ==> !covers(#[trigger] sections[k], addr),
    ensures
        image(sections, symbols).cstr(addr, Which::Any) is None,
        image(sections, symbols).format(addr) is None,
        image(sections, symbols).tag(addr) is None,
{
    section_order_does_not_matter(sections, addr, Which::Any);
    section_order_does_not_matter(sections, addr, Which::Noload);
    section_order_does_not_matter(sections, addr, Which::Ordinary);
    assert forall|which: Which, t: Seq<char>| !all_read(sections, addr, which, t) by {
        if all_read(sections, addr, which, t) {
            let k = choose|k: int|
                0 <= k < sections.len() && (#[trigger] sections[k]).contains(addr) && searches(
                    which,
                    sections[k].name,
                );
            assert(covers(sections[k], addr));
        }
    }
}

/// A section is a no-load section if `.noload` stands anywhere in its name.
pub proof fn noload_sections_are_named_so(name: Seq<char>)
    ensures
        is_noload(name) <==> exists|a: Seq<char>, b: Seq<char>| name == #[trigger] (a + ".noload"@
            + b),
{
    reveal_strlit(".noload");
    if is_noload(name) {
        let i = choose|i: int|
            0 <= i && i + 7 <= name.len() && #[trigger] name.subrange(i, i + 7) == ".noload"@;
        let a = name.take(i);
        let b = name.skip(i + 7);
        assert(name =~= a + name.subrange(i, i + 7) + b);
        assert(name == a + ".noload"@ + b);
    }
    if exists|a: Seq<char>, b: Seq<char>| name == #[trigger] (a + ".noload"@ + b) {
        let (a, b) = choose|a: Seq<char>, b: Seq<char>| name == #[trigger] (a + ".noload"@ + b);
        let i = a.len() as int;
        assert(name.subrange(i, i + 7) =~= ".noload"@);
    }
}

// ---- Functions ----

/// True if `addr` lies in a function of known size.
pub open spec fn spans(sym: SymbolV, addr: u32) -> bool {
    sym.size > 0 && sym.addr <= addr && addr < sym.addr + sym.size && addr < u32::MAX
}

/// True if `addr` lies outside a symbol: below its start, or behind its known size.
pub open spec fn misses(sym: SymbolV, addr: u32) -> bool {
    addr < sym.addr || (sym.size > 0 && sym.addr + sym.size <= addr)
}

proof fn lemma_same_members(symbols: Seq<SymbolV>)
    ensures
        forall|x: SymbolV|
            sorted(symbols, symbol_key()).contains(x) <==> #[trigger] symbols.contains(x),
{
    broadcast use vstd::seq_lib::group_to_multiset_ensures;

    let list = sorted(symbols, symbol_key());
    sorted_is_a_sorted_permutation(symbols, symbol_key());
    assert forall|x: SymbolV| list.contains(x) <==> #[trigger] symbols.contains(x) by {
        assert(list.to_multiset().count(x) == symbols.to_multiset().count(x));
    }
}

proof fn lemma_last_holding_is_last(symbols: Seq<SymbolV>, n: int, addr: u32)
    requires
        0 <= n <= symbols.len(),
    ensures
        match last_holding(symbols, n, addr) {
            Some(i) => 0 <= i < n && symbol_holds(symbols, i, addr) && forall|k: int|
                i < k < n ==> !#[trigger] symbol_holds(symbols, k, addr),
            None => forall|k: int| 0 <= k < n ==> !#[trigger] symbol_holds(symbols, k, addr),
        },
    decreases n,
{
    if n > 0 {
        lemma_last_holding_is_last(symbols, n - 1, addr);
    }
}

proof fn lemma_next_above(symbols: Seq<SymbolV>, j: int, addr: u32, at: u32)
    requires
        forall|k: int|
            0 <= k < symbols.len() ==> !(addr < (#[trigger] symbols[k]).addr && symbols[k].addr
                <= at),
        at < u32::MAX,
        addr <= at,
    ensures
        next_above(symbols, j, addr) > at,
    decreases symbols.len() - j,
{
    if 0 <= j < symbols.len() {
        assert(!(addr < symbols[j].addr && symbols[j].addr <= at));
        lemma_next_above(symbols, j + 1, addr, at);
    }
}

/// An address in a function resolves to that function, with its name, its start and how
/// far behind the start the address lies, wherever no other symbol reaches the address.
pub proof fn address_in_a_function_is_resolved(
    sections: Seq<SectionV>,
    symbols: Seq<SymbolV>,
    i: int,
    addr: u32,
)
    requires
        0 <= i < symbols.len(),
        spans(symbols[i], addr),
        forall|k: int|
            0 <= k < symbols.len() ==> (#[trigger] symbols[k] == symbols[i] || misses(
                symbols[k],
                addr,
            )),
    ensures
        image(sections, symbols).symbol(addr) == Some(
            ResolvedSymbolV {
                name: symbols[i].name,
                address: symbols[i].addr,
                offset: (addr - symbols[i].addr) as u32,
            },
        ),
{
    let list = sorted(symbols, symbol_key());
    let n = list.len() as int;
    lemma_same_members(symbols);
    lemma_last_holding_is_last(list, n, addr);
    assert(symbols.contains(symbols[i]));
    let p = choose|p: int| 0 <= p < list.len() && list[p] == symbols[i];
    assert(symbol_holds(list, p, addr));
    let q = last_holding(list, n, addr)->0;
    assert(list.contains(list[q]));
    assert(symbols.contains(list[q]));
    let j = choose|j: int| 0 <= j < symbols.len() && symbols[j] == list[q];
    assert(symbols[j] == symbols[i] || misses(symbols[j], addr));
}

/// A function of unknown size reaches up to the next symbol: an address between resolves
/// to it.
pub proof fn function_of_unknown_size_reaches_to_the_next(
    sections: Seq<SectionV>,
    symbols: Seq<SymbolV>,
    i: int,
    addr: u32,
)
    requires
        0 <= i < symbols.len(),
        symbols[i].size == 0,
        symbols[i].addr <= addr < u32::MAX,
        forall|k: int|
            0 <= k < symbols.len() && k != i ==> {
                let sym = #[trigger] symbols[k];
                addr < sym.addr || (sym.addr < symbols[i].addr && misses(sym, addr))
            },
    ensures
        image(sections, symbols).symbol(addr) == Some(
            ResolvedSymbolV {
                name: symbols[i].name,
                address: symbols[i].addr,
                offset: (addr - symbols[i].addr) as u32,
            },
        ),
{
    let list = sorted(symbols, symbol_key());
    let n = list.len() as int;
    lemma_same_members(symbols);
    lemma_last_holding_is_last(list, n, addr);
    assert(symbols.contains(symbols[i]));
    let p = choose|p: int| 0 <= p < list.len() && list[p] == symbols[i];
    assert forall|k: int| 0 <= k < list.len() implies !(symbols[i].addr < (
    #[trigger] list[k]).addr && list[k].addr <= addr) by {
        assert(list.contains(list[k]));
        assert(symbols.contains(list[k]));
        let j = choose|j: int| 0 <= j < symbols.len() && symbols[j] == list[k];
        assert(symbols[j] == list[k]);
    }
    lemma_next_above(list, p + 1, symbols[i].addr, addr);
    assert(symbol_holds(list, p, addr));
    let q = last_holding(list, n, addr)->0;
    assert(list.contains(list[q]));
    assert(symbols.contains(list[q]));
    let j = choose|j: int| 0 <= j < symbols.len() && symbols[j] == list[q];
    if j != i {
        assert(symbols[j] == list[q]);
    }
}

/// Of the functions in which an address lies, the one that starts last is taken, and of
/// those that start at one address the shortest one.
pub proof fn innermost_function_is_taken(
    sections: Seq<SectionV>,
    symbols: Seq<SymbolV>,
    i: int,
    addr: u32,
)
    requires
        0 <= i < symbols.len(),
        spans(symbols[i], addr),
    ensures
        image(sections, symbols).symbol(addr) is Some,
        exists|m: int|
            0 <= m < symbols.len() && {
                let s = image(sections, symbols).symbol(addr)->0;
                let sym = #[trigger] symbols[m];
                &&& s.name == sym.name && s.address == sym.addr
                &&& s.address <= addr && s.offset == addr - s.address
                &&& symbols[i].addr <= sym.addr
                &&& symbols[i].addr == sym.addr ==> sym.size <= symbols[i].size
            },
{
    let list = sorted(symbols, symbol_key());
    let n = list.len() as int;
    lemma_same_members(symbols);
    sorted_is_a_sorted_permutation(symbols, symbol_key());
    lemma_last_holding_is_last(list, n, addr);
    assert(symbols.contains(symbols[i]));
    let p = choose|p: int| 0 <= p < list.len() && list[p] == symbols[i];
    assert(symbol_holds(list, p, addr));
    let q = last_holding(list, n, addr)->0;
    assert(p <= q);
    assert(symbol_key()(list[p]) <= symbol_key()(list[q]));
    assert(list.contains(list[q]));
    assert(symbols.contains(list[q]));
    let m = choose|m: int| 0 <= m < symbols.len() && symbols[m] == list[q];
    assert(symbols[m] == list[q]);
}

/// An address that no function reaches resolves to none.
pub proof fn address_outside_functions_is_not_resolved(
    sections: Seq<SectionV>,
    symbols: Seq<SymbolV>,
    addr: u32,
)
    requires
        forall|k: int| 0 <= k < symbols.len() ==> misses(#[trigger] symbols[k], addr),
    ensures
        image(sections, symbols).symbol(addr) is None,
{
    let list = sorted(symbols, symbol_key());
    let n = list.len() as int;
    lemma_same_members(symbols);
    lemma_last_holding_is_last(list, n, addr);
    if last_holding(list, n, addr) is Some {
        let q = last_holding(list, n, addr)->0;
        assert(list.contains(list[q]));
        assert(symbols.contains(list[q]));
        let m = choose|m: int| 0 <= m < symbols.len() && symbols[m] == list[q];
        assert(misses(symbols[m], addr));
    }
}

// ---- What an image takes from its file ----

proof fn lemma_section_taken(file: Seq<u8>, headers: Seq<SectionHeaderV>, i: int, s: SectionV)
    requires
        0 <= i < headers.len(),
        section_of(file, headers[i]) == Some(s),
    ensures
        sections_of(file, headers).contains(s),
    decreases headers.len(),
{
    let front = sections_of(file, headers.drop_last());
    let all = sections_of(file, headers);
    if i == headers.len() - 1 {
        assert(all.last() == s);
        assert(all[all.len() - 1] == s);
    } else {
        lemma_section_taken(file, headers.drop_last(), i, s);
        let k = choose|k: int| 0 <= k < front.len() && front[k] == s;
        assert(all[k] == s);
    }
}

proof fn lemma_section_source(file: Seq<u8>, headers: Seq<SectionHeaderV>, s: SectionV)
    requires
        sections_of(file, headers).contains(s),
    ensures
        exists|i: int| 0 <= i < headers.len() && section_of(file, #[trigger] headers[i]) == Some(s),
    decreases headers.len(),
{
    if headers.len() > 0 {
        let front = sections_of(file, headers.drop_last());
        let all = sections_of(file, headers);
        let k = choose|k: int| 0 <= k < all.len() && all[k] == s;
        if k < front.len() {
            assert(front[k] == s);
            lemma_section_source(file, headers.drop_last(), s);
            let i = choose|i: int|
                0 <= i < headers.len() - 1 && section_of(
                    file,
                    #[trigger] headers.drop_last()[i],
                ) == Some(s);
            assert(headers[i] == headers.drop_last()[i]);
        } else {
            assert(section_of(file, headers[headers.len() - 1]) == Some(s));
        }
    }
}

/// True if a section header says that bytes of the file are loaded at an address, or
/// kept for a no-load section.
pub open spec fn is_loaded(file: Seq<u8>, h: SectionHeaderV) -> bool {
    &&& h.size > 0
    &&& h.kind != 8
    &&& h.addr + h.size <= u32::MAX
    &&& h.offset + h.size <= file.len()
    &&& h.name is Some
    &&& h.addr == 0 ==> is_noload(h.name->0)
}

/// True if `addr` lies outside the addresses of a section header, or the header stands
/// for no bytes of the file.
pub open spec fn is_elsewhere(h: SectionHeaderV, addr: u32) -> bool {
    addr < h.addr || h.addr + h.size <= addr || h.kind == 8
}

/// A string in the file is found by its address: if it stands in a loaded section, as
/// far behind the section's offset in the file as its address is behind the section's
/// address, and no other section lies there.
pub proof fn string_in_the_file_is_found(
    file: Seq<u8>,
    headers: Seq<SectionHeaderV>,
    symbols: Seq<RawSymbolV>,
    dynamic: Seq<RawSymbolV>,
    i: int,
    addr: u32,
    t: Seq<char>,
)
    requires
        0 <= i < headers.len(),
        is_loaded(file, headers[i]),
        headers[i].addr <= addr < headers[i].addr + headers[i].size,
        forall|k: int|
            0 <= k < headers.len() && k != i ==> is_elsewhere(#[trigger] headers[k], addr),
        t.len() > 0,
        !t.contains('\0'),
        ({
            let at = headers[i].offset + (addr - headers[i].addr);
            let bytes = encode_utf8(t);
            &&& at + bytes.len() < headers[i].offset + headers[i].size
            &&& file.subrange(at, at + bytes.len()) == bytes
            &&& file[at + bytes.len()] == 0
        }),
    ensures
        ({
            let elf = elf_image(file, headers, symbols, dynamic);
            &&& elf.cstr(addr, Which::Any) == Some(t)
            &&& elf.format(addr) == Some(t)
            &&& !is_noload(headers[i].name->0) ==> elf.tag(addr) == Some(t)
        }),
{
    let h = headers[i];
    let list = sections_of(file, headers);
    let s = section_of(file, h)->0;
    lemma_section_taken(file, headers, i, s);
    let j = choose|j: int| 0 <= j < list.len() && list[j] == s;
    let off = addr - s.addr;
    let bytes = encode_utf8(t);
    let at = h.offset + (addr - h.addr);
    assert(s.data.subrange(off, off + bytes.len()) =~= file.subrange(at, at + bytes.len()));
    assert(s.data[off + bytes.len()] == file[at + bytes.len()]);
    assert(holds_text(s, addr, t));
    assert forall|k: int|
        0 <= k < list.len() && covers(#[trigger] list[k], addr) implies holds_text(
        list[k],
        addr,
        t,
    ) by {
        assert(list.contains(list[k]));
        lemma_section_source(file, headers, list[k]);
        let m = choose|m: int|
            0 <= m < headers.len() && section_of(file, #[trigger] headers[m]) == Some(list[k]);
        if m != i {
            assert(is_elsewhere(headers[m], addr));
        }
    }
    let funcs = with_elf_symbols(with_elf_symbols(Seq::empty(), symbols), dynamic);
    string_of_the_image_is_found(list, funcs, j, addr, t);
}

/// True if an entry of an ELF symbol table is a function with a name and a 32-bit address.
pub open spec fn is_function(raw: RawSymbolV) -> bool {
    &&& raw.kind == 2
    &&& 0 < raw.value <= u32::MAX
    &&& raw.name is Some
    &&& raw.name->0.len() > 0
}

/// The function that such an entry stands for; a size that 32 bits cannot hold is unknown.
pub open spec fn function_of(raw: RawSymbolV) -> SymbolV {
    SymbolV {
        name: raw.name->0,
        addr: raw.value as u32,
        size: if raw.size <= u32::MAX {
            raw.size as u32
        } else {
            0
        },
    }
}

proof fn lemma_listed_stays(list: Seq<SymbolV>, sym: SymbolV, addr: u32, name: Seq<char>)
    requires
        is_listed(list, addr, name),
    ensures
        is_listed(with_symbol(list, sym), addr, name),
{
    let k = choose|k: int|
        0 <= k < list.len() && (#[trigger] list[k]).addr == addr && list[k].name == name;
    let all = with_symbol(list, sym);
    assert(all[k] == list[k]);
}

proof fn lemma_listed_new(list: Seq<SymbolV>, sym: SymbolV)
    ensures
        is_listed(with_symbol(list, sym), sym.addr, sym.name),
{
    if !is_listed(list, sym.addr, sym.name) {
        let all = list.push(sym);
        assert(all[list.len() as int] == sym);
    }
}

proof fn lemma_table_keeps(list: Seq<SymbolV>, raws: Seq<RawSymbolV>, addr: u32, name: Seq<char>)
    requires
        is_listed(list, addr, name),
    ensures
        is_listed(with_elf_symbols(list, raws), addr, name),
    decreases raws.len(),
{
    if raws.len() > 0 {
        lemma_table_keeps(list, raws.drop_last(), addr, name);
        if let Some(sym) = elf_symbol_of(raws.last()) {
            lemma_listed_stays(with_elf_symbols(list, raws.drop_last()), sym, addr, name);
        }
    }
}

proof fn lemma_table_lists(list: Seq<SymbolV>, raws: Seq<RawSymbolV>, i: int)
    requires
        0 <= i < raws.len(),
        is_function(raws[i]),
    ensures
        is_listed(with_elf_symbols(list, raws), raws[i].value as u32, raws[i].name->0),
    decreases raws.len(),
{
    let front = with_elf_symbols(list, raws.drop_last());
    if i == raws.len() - 1 {
        lemma_listed_new(front, function_of(raws[i]));
    } else {
        lemma_table_lists(list, raws.drop_last(), i);
        assert(raws.drop_last()[i] == raws[i]);
        if let Some(sym) = elf_symbol_of(raws.last()) {
            lemma_listed_stays(front, sym, raws[i].value as u32, raws[i].name->0);
        }
    }
}

proof fn lemma_table_source(list: Seq<SymbolV>, raws: Seq<RawSymbolV>, s: SymbolV)
    requires
        with_elf_symbols(list, raws).contains(s),
    ensures
        list.contains(s) || exists|i: int|
            0 <= i < raws.len() && is_function(#[trigger] raws[i]) && s == function_of(raws[i]),
    decreases raws.len(),
{
    if raws.len() > 0 {
        let front = with_elf_symbols(list, raws.drop_last());
        let all = with_elf_symbols(list, raws);
        let k = choose|k: int| 0 <= k < all.len() && all[k] == s;
        if k < front.len() {
            assert(front[k] == s);
            lemma_table_source(list, raws.drop_last(), s);
            if !list.contains(s) {
                let i = choose|i: int|
                    0 <= i < raws.len() - 1 && is_function(#[trigger] raws.drop_last()[i]) && s
                        == function_of(raws.drop_last()[i]);
                assert(raws[i] == raws.drop_last()[i]);
            }
        } else {
            assert(is_function(raws[raws.len() - 1]));
            assert(s == function_of(raws[raws.len() - 1]));
        }
    }
}

/// Each function of the symbol table and of the dynamic symbol table of a file is listed,
/// by its address and its name, and nothing else is.
pub proof fn functions_of_the_file_are_listed(symbols: Seq<RawSymbolV>, dynamic: Seq<RawSymbolV>)
    ensures
        ({
            let list = with_elf_symbols(with_elf_symbols(Seq::empty(), symbols), dynamic);
            &&& forall|i: int|
                0 <= i < symbols.len() && is_function(#[trigger] symbols[i]) ==> is_listed(
                    list,
                    symbols[i].value as u32,
                    symbols[i].name->0,
                )
            &&& forall|i: int|
                0 <= i < dynamic.len() && is_function(#[trigger] dynamic[i]) ==> is_listed(
                    list,
                    dynamic[i].value as u32,
                    dynamic[i].name->0,
                )
            &&& forall|k: int|
                0 <= k < list.len() ==> comes_from(#[trigger] list[k], symbols) || comes_from(
                    list[k],
                    dynamic,
                )
        }),
{
    let none = Seq::<SymbolV>::empty();
    let first = with_elf_symbols(none, symbols);
    let list = with_elf_symbols(first, dynamic);
    assert forall|i: int|
        0 <= i < symbols.len() && is_function(#[trigger] symbols[i]) implies is_listed(
        list,
        symbols[i].value as u32,
        symbols[i].name->0,
    ) by {
        lemma_table_lists(none, symbols, i);
        lemma_table_keeps(first, dynamic, symbols[i].value as u32, symbols[i].name->0);
    }
    assert forall|i: int|
        0 <= i < dynamic.len() && is_function(#[trigger] dynamic[i]) implies is_listed(
        list,
        dynamic[i].value as u32,
        dynamic[i].name->0,
    ) by {
        lemma_table_lists(first, dynamic, i);
    }
    assert forall|k: int| 0 <= k < list.len() implies comes_from(#[trigger] list[k], symbols)
        || comes_from(list[k], dynamic) by {
        assert(list.contains(list[k]));
        lemma_table_source(first, dynamic, list[k]);
        if first.contains(list[k]) {
            lemma_table_source(none, symbols, list[k]);
        }
    }
}

/// True if a function is one of the entries of a table.
pub open spec fn comes_from(sym: SymbolV, raws: Seq<RawSymbolV>) -> bool {
    exists|i: int|
        0 <= i < raws.len() && is_function(#[trigger] raws[i]) && sym == function_of(raws[i])
}

/// An address in a function of the file resolves to that function, wherever no other
/// function of the file reaches the address.
pub proof fn function_of_the_file_is_resolved(
    file: Seq<u8>,
    headers: Seq<SectionHeaderV>,
    symbols: Seq<RawSymbolV>,
    dynamic: Seq<RawSymbolV>,
    i: int,
    addr: u32,
)
    requires
        0 <= i < symbols.len(),
        is_function(symbols[i]),
        spans(function_of(symbols[i]), addr),
        forall|k: int|
            0 <= k < symbols.len() && is_function(#[trigger] symbols[k]) ==> function_of(symbols[k])
                == function_of(symbols[i]) || misses(function_of(symbols[k]), addr),
        forall|k: int|
            0 <= k < dynamic.len() && is_function(#[trigger] dynamic[k]) ==> function_of(dynamic[k])
                == function_of(symbols[i]) || misses(function_of(dynamic[k]), addr),
        forall|k: int|
            0 <= k < symbols.len() && is_function(#[trigger] symbols[k]) && symbols[k].value
                == symbols[i].value && symbols[k].name == symbols[i].name ==> symbols[k].size
                == symbols[i].size,
        forall|k: int|
            0 <= k < dynamic.len() && is_function(#[trigger] dynamic[k]) && dynamic[k].value
                == symbols[i].value && dynamic[k].name == symbols[i].name ==> dynamic[k].size
                == symbols[i].size,
    ensures
        elf_image(file, headers, symbols, dynamic).symbol(addr) == Some(
            ResolvedSymbolV {
                name: symbols[i].name->0,
                address: symbols[i].value as u32,
                offset: (addr - symbols[i].value) as u32,
            },
        ),
{
    functions_of_the_file_are_listed(symbols, dynamic);
    let list = with_elf_symbols(with_elf_symbols(Seq::empty(), symbols), dynamic);
    let f = function_of(symbols[i]);
    let m = choose|m: int|
        0 <= m < list.len() && (#[trigger] list[m]).addr == f.addr && list[m].name == f.name;
    assert(comes_from(list[m], symbols) || comes_from(list[m], dynamic));
    assert(list[m] == f);
    assert forall|k: int| 0 <= k < list.len() implies (#[trigger] list[k] == list[m] || misses(
        list[k],
        addr,
    )) by {
        assert(comes_from(list[k], symbols) || comes_from(list[k], dynamic));
    }
    address_in_a_function_is_resolved(sections_of(file, headers), list, m, addr);
}

// ---- Mach-O images ----

proof fn lemma_mach_section_taken(list: Seq<MachSectionV>, i: int, s: SectionV)
    requires
        0 <= i < list.len(),
        mach_section_of(list[i]) == Some(s),
    ensures
        mach_sections_of(list).contains(s),
    decreases list.len(),
{
    let front = mach_sections_of(list.drop_last());
    let all = mach_sections_of(list);
    if i == list.len() - 1 {
        assert(all[all.len() - 1] == s);
    } else {
        lemma_mach_section_taken(list.drop_last(), i, s);
        let k = choose|k: int| 0 <= k < front.len() && front[k] == s;
        assert(all[k] == s);
    }
}

proof fn lemma_mach_section_source(list: Seq<MachSectionV>, s: SectionV)
    requires
        mach_sections_of(list).contains(s),
    ensures
        exists|i: int| 0 <= i < list.len() && mach_section_of(#[trigger] list[i]) == Some(s),
    decreases list.len(),
{
    if list.len() > 0 {
        let front = mach_sections_of(list.drop_last());
        let all = mach_sections_of(list);
        let k = choose|k: int| 0 <= k < all.len() && all[k] == s;
        if k < front.len() {
            assert(front[k] == s);
            lemma_mach_section_source(list.drop_last(), s);
            let i = choose|i: int|
                0 <= i < list.len() - 1 && mach_section_of(#[trigger] list.drop_last()[i]) == Some(
                    s,
                );
            assert(list[i] == list.drop_last()[i]);
        } else {
            assert(mach_section_of(list[list.len() - 1]) == Some(s));
        }
    }
}

/// A string in a section of a Mach-O image is found by the low 32 bits of its address, if
/// no other section lies there; a section is named by its segment and its own name.
pub proof fn string_in_a_mach_image_is_found(
    list: Seq<MachSectionV>,
    symbols: Seq<MachSymbolV>,
    i: int,
    off: nat,
    t: Seq<char>,
)
    requires
        0 <= i < list.len(),
        list[i].addr + list[i].data.len() <= u32::MAX,
        t.len() > 0,
        !t.contains('\0'),
        off + encode_utf8(t).len() < list[i].data.len(),
        list[i].data.subrange(off as int, (off + encode_utf8(t).len()) as int) == encode_utf8(t),
        list[i].data[(off + encode_utf8(t).len()) as int] == 0,
        forall|k: int|
            0 <= k < list.len() && k != i ==> {
                let m = #[trigger] list[k];
                &&& m.addr + m.data.len() <= u32::MAX
                &&& list[i].addr + off < m.addr || m.addr + m.data.len() <= list[i].addr + off
            },
    ensures
        ({
            let addr = (list[i].addr + off) as u32;
            &&& mach_image(Ok::<Seq<MachSectionV>, Seq<char>>(list), symbols) matches Ok(elf)
                && elf.cstr(addr, Which::Any) == Some(t) && elf.format(addr) == Some(t)
            &&& list[i].segment is Some && list[i].name is Some && !is_noload(
                list[i].segment->0 + ","@ + list[i].name->0,
            ) ==> mach_image(Ok::<Seq<MachSectionV>, Seq<char>>(list), symbols)->Ok_0.tag(addr)
                == Some(t)
        }),
{
    let secs = mach_sections_of(list);
    let s = mach_section_of(list[i])->0;
    let addr = (list[i].addr + off) as u32;
    lemma_mach_section_taken(list, i, s);
    let j = choose|j: int| 0 <= j < secs.len() && secs[j] == s;
    assert(holds_text(s, addr, t));
    assert forall|k: int|
        0 <= k < secs.len() && covers(#[trigger] secs[k], addr) implies holds_text(
        secs[k],
        addr,
        t,
    ) by {
        assert(secs.contains(secs[k]));
        lemma_mach_section_source(list, secs[k]);
        let m = choose|m: int|
            0 <= m < list.len() && mach_section_of(#[trigger] list[m]) == Some(secs[k]);
        if m != i {
            assert(list[m].addr + list[m].data.len() <= u32::MAX);
        }
    }
    string_of_the_image_is_found(secs, mach_symbols_of(symbols), j, addr, t);
}

/// True if an entry of a Mach-O symbol table is defined in a section, has a name and a
/// value, and is none of the debugger's.
pub open spec fn is_defined(m: MachSymbolV) -> bool {
    m.name.len() > 0 && m.value != 0 && !m.stab && m.kind == 0xe
}

/// Each symbol that a Mach-O image defines is listed by the low 32 bits of its value and
/// by its name, and nothing else is; its size is unknown.
pub proof fn symbols_of_a_mach_image_are_listed(symbols: Seq<MachSymbolV>)
    ensures
        ({
            let list = mach_symbols_of(symbols);
            &&& forall|i: int|
                0 <= i < symbols.len() && is_defined(#[trigger] symbols[i]) ==> is_listed(
                    list,
                    symbols[i].value as u32,
                    symbols[i].name,
                )
            &&& forall|k: int|
                0 <= k < list.len() ==> (#[trigger] list[k]).size == 0 && is_from(list[k], symbols)
        }),
    decreases symbols.len(),
{
    let list = mach_symbols_of(symbols);
    if symbols.len() > 0 {
        let front = symbols.drop_last();
        let before = mach_symbols_of(front);
        symbols_of_a_mach_image_are_listed(front);
        assert forall|i: int|
            0 <= i < symbols.len() && is_defined(#[trigger] symbols[i]) implies is_listed(
            list,
            symbols[i].value as u32,
            symbols[i].name,
        ) by {
            if i < symbols.len() - 1 {
                assert(front[i] == symbols[i]);
                if let Some(sym) = mach_symbol_of(symbols.last()) {
                    lemma_listed_stays(before, sym, symbols[i].value as u32, symbols[i].name);
                }
            } else {
                lemma_listed_new(before, mach_symbol_of(symbols[i])->0);
            }
        }
        assert forall|k: int| 0 <= k < list.len() implies (#[trigger] list[k]).size == 0 && is_from(
            list[k],
            symbols,
        ) by {
            if k < before.len() {
                assert(list[k] == before[k]);
                let i = choose|i: int|
                    0 <= i < front.len() && is_defined(#[trigger] front[i]) && list[k].name
                        == front[i].name && list[k].addr == front[i].value as u32;
                assert(symbols[i] == front[i]);
            } else {
                assert(is_defined(symbols[symbols.len() - 1]));
            }
        }
    }
}

/// True if a symbol is one of the entries that an image defines.
pub open spec fn is_from(sym: SymbolV, symbols: Seq<MachSymbolV>) -> bool {
    exists|i: int|
        0 <= i < symbols.len() && is_defined(#[trigger] symbols[i]) && sym.name == symbols[i].name
            && sym.addr == symbols[i].value as u32
}

/// Bytes that are no UTF-8 are no string.
pub proof fn bytes_that_are_no_text_are_not_read(sec: SectionV, addr: u32, n: int)
    requires
        sec.addr <= addr,
        0 < n,
        addr - sec.addr + n <= sec.data.len(),
        addr - sec.addr + n == sec.data.len() || sec.data[addr - sec.addr + n] == 0,
        forall|k: int|
            addr - sec.addr <= k < addr - sec.addr + n ==> #[trigger] sec.data[k] != 0,
        !valid_utf8(sec.data.subrange(addr - sec.addr, addr - sec.addr + n)),
    ensures
        sec.cstr(addr) is None,
{
    lemma_nul_behind(sec.data, addr - sec.addr, addr - sec.addr + n);
}

proof fn lemma_sections_of_both(file: Seq<u8>, a: Seq<SectionHeaderV>, b: Seq<SectionHeaderV>)
    ensures
        sections_of(file, a + b) == sections_of(file, a) + sections_of(file, b),
    decreases b.len(),
{
    if b.len() == 0 {
        assert(a + b =~= a);
        assert(sections_of(file, a) + sections_of(file, b) =~= sections_of(file, a));
    } else {
        lemma_sections_of_both(file, a, b.drop_last());
        assert((a + b).drop_last() =~= a + b.drop_last());
        assert(sections_of(file, a + b) =~= sections_of(file, a) + sections_of(file, b));
    }
}

/// A section header changes nothing of an image if it stands for no bytes, or for bytes
/// that the file has not, or if it is neither loaded at a 32-bit address nor a no-load
/// section.
pub proof fn headers_without_contents_change_nothing(
    file: Seq<u8>,
    a: Seq<SectionHeaderV>,
    h: SectionHeaderV,
    b: Seq<SectionHeaderV>,
    symbols: Seq<RawSymbolV>,
    dynamic: Seq<RawSymbolV>,
)
    requires
        ({
            ||| h.size == 0
            ||| h.kind == 8
            ||| h.addr > u32::MAX
            ||| h.offset + h.size > file.len()
            ||| h.addr == 0 && (h.name is None || !is_noload(h.name->0))
        }),
    ensures
        elf_image(file, a + seq![h] + b, symbols, dynamic) == elf_image(
            file,
            a + b,
            symbols,
            dynamic,
        ),
{
    if h.name is None {
        let none = Seq::<char>::empty();
        reveal_strlit(".noload");
        assert(!is_noload(none));
    }
    lemma_sections_of_both(file, a + seq![h], b);
    lemma_sections_of_both(file, a, seq![h]);
    lemma_sections_of_both(file, a, b);
    let one = seq![h];
    assert(one.last() == h);
    assert(section_of(file, h) is None);
    assert(one.drop_last() =~= Seq::<SectionHeaderV>::empty());
    assert(sections_of(file, one.drop_last()) =~= Seq::<SectionV>::empty());
    assert(sections_of(file, one) =~= Seq::<SectionV>::empty());
    assert(sections_of(file, a) + sections_of(file, one) =~= sections_of(file, a));
}

/// Only ELF files and thin Mach-O files whose entry point has an address are read. What
/// else is refused, with the reason.
pub proof fn other_files_are_refused(bytes: Seq<u8>)
    ensures
        !entry_fits(bytes) ==> image_of(bytes) == Err::<ElfV, Seq<char>>(
            "executable parse: Mach-O entry point is out of range"@,
        ),
        entry_fits(bytes) ==> match image_kind(bytes) {
            Ok(ImageKind::Elf) => image_of(bytes) is Ok,
            Ok(ImageKind::Mach) => match mach_sections(bytes) {
                Ok(_) => image_of(bytes) is Ok,
                Err(why) => image_of(bytes) == Err::<ElfV, Seq<char>>(
                    "Mach-O section parse: "@ + why,
                ),
            },
            Ok(ImageKind::FatMach) => image_of(bytes) == Err::<ElfV, Seq<char>>(
                "fat Mach-O images are not supported; use a thin executable"@,
            ),
            Ok(ImageKind::Other) => image_of(bytes) == Err::<ElfV, Seq<char>>(
                "unsupported executable format; expected ELF or Mach-O"@,
            ),
            Err(why) => image_of(bytes) == Err::<ElfV, Seq<char>>("executable parse: "@ + why),
        },
{
}

} // verus!
