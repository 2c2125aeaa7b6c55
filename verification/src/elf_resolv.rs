//! Resolve ELF or Mach-O addresses back to their C strings and symbols.
//!
//! The firmware places format strings in `.noload_keep_in_elf.*` sections and
//! tags in normal read-only sections, then sends only the address. The host
//! opens the matching ELF and maps each address to the NUL-terminated string
//! stored in any section that carries file bytes at that virtual address.

use crate::load_commands::{entry_fits, entry_point_fits};
use crate::sorting::{is_sorted, lemma_placed_at, sorted, sorted_is_a_sorted_permutation};
use crate::text::chars_of;
use crate::utf8::text_of;
use vstd::prelude::*;
use vstd::string::*;
use vstd::utf8::{decode_utf8, valid_utf8};

verus! {

/// A section with its virtual-address range and file-backed data.
#[derive(Debug, Clone, PartialEq, Eq)]
pub struct Section {
    /// Section name (e.g. `.rodata`, `.noload`).
    pub name: String,
    /// Virtual start address of the section.
    pub addr: u32,
    /// Exclusive end address (`addr + section_size`).
    pub end: u32,
    /// Raw file bytes for this section (for string lookups).
    pub data: Vec<u8>,
}

/// A section.
#[verifier::ext_equal]
pub struct SectionV {
    pub name: Seq<char>,
    pub addr: u32,
    pub end: u32,
    pub data: Seq<u8>,
}

impl View for Section {
    type V = SectionV;

    open spec fn view(&self) -> SectionV {
        SectionV { name: self.name@, addr: self.addr, end: self.end, data: self.data@ }
    }
}

/// The sections of a list.
pub open spec fn section_views(s: Seq<Section>) -> Seq<SectionV> {
    Seq::new(s.len(), |i: int| s[i]@)
}

/// A function symbol parsed from the symbol table.
#[derive(Debug, Clone, PartialEq, Eq)]
pub struct Symbol {
    /// Mangled or unmangled function name.
    pub name: String,
    /// Virtual address of the function entry point.
    pub addr: u32,
    /// Size of the function in bytes (0 if unknown).
    pub size: u32,
}

/// A function symbol.
#[verifier::ext_equal]
pub struct SymbolV {
    pub name: Seq<char>,
    pub addr: u32,
    pub size: u32,
}

impl View for Symbol {
    type V = SymbolV;

    open spec fn view(&self) -> SymbolV {
        SymbolV { name: self.name@, addr: self.addr, size: self.size }
    }
}

/// The symbols of a list.
pub open spec fn symbol_views(s: Seq<Symbol>) -> Seq<SymbolV> {
    Seq::new(s.len(), |i: int| s[i]@)
}

/// A resolved symbol result: the containing function name, its base address,
/// and the byte offset from that base to the queried address.
#[derive(Debug, Clone, PartialEq, Eq)]
pub struct ResolvedSymbol<'a> {
    /// Function symbol name.
    pub name: &'a str,
    /// Base address of the function.
    pub address: u32,
    /// Byte offset from `address` to the queried instruction address.
    pub offset: u32,
}

/// A source file and optional line number resolved from an instruction address
/// via DWARF debug information.
#[derive(Debug, Clone, PartialEq, Eq)]
pub struct SourceLocation {
    /// Source file path (as recorded in DWARF).
    pub file: String,
    /// 1-based line number, or `None` if the debug info lacks line data.
    pub line: Option<u32>,
}

/// Address-indexed executable-image string table.
///
/// Provides address-to-string resolution for format strings, tags, and function
/// symbols of an ELF or Mach-O image.
pub struct ElfStrings {
    /// Sections sorted by start address, each carrying its file bytes.
    sections: Vec<Section>,
    /// Function symbols sorted by start address.
    symbols: Vec<Symbol>,
    /// Runtime image slide reduced to the 32-bit address width carried on the
    /// wire. Zero for ESP ELF images and non-PIE host executables.
    address_slide: u32,
}

/// What an image holds.
#[verifier::ext_equal]
pub struct ElfV {
    pub sections: Seq<SectionV>,
    pub symbols: Seq<SymbolV>,
    pub slide: u32,
}

impl View for ElfStrings {
    type V = ElfV;

    closed spec fn view(&self) -> ElfV {
        ElfV {
            sections: section_views(self.sections@),
            symbols: symbol_views(self.symbols@),
            slide: self.address_slide,
        }
    }
}

// ---- Strings ----

/// Position of the first NUL byte at or after `i`, or the length.
pub open spec fn nul_from(s: Seq<u8>, i: int) -> int
    decreases s.len() - i,
{
    if 0 <= i < s.len() && s[i] != 0 {
        nul_from(s, i + 1)
    } else {
        i
    }
}

/// The string that starts at offset `off` of `data`: up to the first NUL byte or
/// the end; no string if that is empty or not UTF-8.
pub open spec fn cstr_at(data: Seq<u8>, off: int) -> Option<Seq<char>> {
    if off >= data.len() || data[off] == 0 {
        None
    } else {
        let bytes = data.subrange(off, nul_from(data, off));
        if valid_utf8(bytes) {
            Some(decode_utf8(bytes))
        } else {
            None
        }
    }
}

/// True if `name` contains `.noload`: an ESP-IDF no-load section, which carries
/// format strings at VMA 0.
pub open spec fn is_noload(name: Seq<char>) -> bool {
    exists|i: int|
        0 <= i && i + 7 <= name.len() && #[trigger] name.subrange(i, i + 7) == ".noload"@
}

/// Which sections a lookup searches.
#[derive(Debug, Clone, Copy, PartialEq, Eq, Structural)]
pub enum Which {
    /// All sections.
    Any,
    /// No-load sections.
    Noload,
    /// All but no-load sections.
    Ordinary,
}

/// True if the lookup searches a section of this name.
pub open spec fn searches(which: Which, name: Seq<char>) -> bool {
    match which {
        Which::Any => true,
        Which::Noload => is_noload(name),
        Which::Ordinary => !is_noload(name),
    }
}

impl SectionV {
    /// True if `addr` falls within the address range.
    pub open spec fn contains(self, addr: u32) -> bool {
        self.addr <= addr < self.end
    }

    /// The string at `addr`; none below the section or behind its data.
    pub open spec fn cstr(self, addr: u32) -> Option<Seq<char>> {
        if addr < self.addr {
            None
        } else {
            cstr_at(self.data, addr - self.addr)
        }
    }
}

/// True if some searched section contains `addr`, and the string at `addr` is `t`
/// in every such section.
pub open spec fn all_read(sections: Seq<SectionV>, addr: u32, which: Which, t: Seq<char>) -> bool {
    &&& exists|k: int|
        0 <= k < sections.len() && (#[trigger] sections[k]).contains(addr) && searches(
            which,
            sections[k].name,
        )
    &&& forall|k: int|
        0 <= k < sections.len() && (#[trigger] sections[k]).contains(addr) && searches(
            which,
            sections[k].name,
        ) ==> sections[k].cstr(addr) == Some(t)
}

/// The string that the searched sections agree on at `addr`.
pub open spec fn agreed(sections: Seq<SectionV>, addr: u32, which: Which) -> Option<Seq<char>> {
    if exists|t: Seq<char>| all_read(sections, addr, which, t) {
        Some(choose|t: Seq<char>| all_read(sections, addr, which, t))
    } else {
        None
    }
}

/// `addr` as the image file has it.
pub open spec fn unslid(addr: u32, slide: u32) -> u32 {
    if addr >= slide {
        (addr - slide) as u32
    } else {
        (addr + 0x1_0000_0000 - slide) as u32
    }
}

impl ElfV {
    /// The string at `addr`.
    pub open spec fn cstr(self, addr: u32, which: Which) -> Option<Seq<char>> {
        agreed(self.sections, unslid(addr, self.slide), which)
    }

    /// The format string at `addr`: from the no-load sections, else from any.
    pub open spec fn format(self, addr: u32) -> Option<Seq<char>> {
        match self.cstr(addr, Which::Noload) {
            Some(t) => Some(t),
            None => self.cstr(addr, Which::Any),
        }
    }

    /// The tag at `addr`.
    pub open spec fn tag(self, addr: u32) -> Option<Seq<char>> {
        self.cstr(addr, Which::Ordinary)
    }
}

fn nul_stop(s: &[u8], i: usize) -> (r: usize)
    requires
        i <= s.len(),
    ensures
        r == nul_from(s@, i as int),
        i <= r <= s.len(),
{
    let mut j: usize = i;
    while j < s.len() && s[j] != 0
        invariant
            i <= j <= s.len(),
            nul_from(s@, j as int) == nul_from(s@, i as int),
        decreases s.len() - j,
    {
        j += 1;
    }
    j
}

/// True if the two texts are equal.
pub fn same_text(a: &str, b: &str) -> (r: bool)
    ensures
        r == (a@ == b@),
{
    let x = chars_of(a);
    let y = chars_of(b);
    if x.len() != y.len() {
        return false;
    }
    let mut i: usize = 0;
    while i < x.len()
        invariant
            i <= x.len(),
            x@ == a@,
            y@ == b@,
            x.len() == y.len(),
            forall|k: int| 0 <= k < i ==> x[k] == y[k],
        decreases x.len() - i,
    {
        if x[i] != y[i] {
            return false;
        }
        i += 1;
    }
    assert(a@ =~= b@);
    true
}

/// Checks whether a section name identifies it as an ESP-IDF no-load section
/// (`.noload*`), which carry format strings at VMA 0.
fn is_noload_section(name: &str) -> (r: bool)
    ensures
        r == is_noload(name@),
{
    let chars = chars_of(name);
    let mark = chars_of(".noload");
    proof {
        reveal_strlit(".noload");
    }
    let mut i: usize = 0;
    while i < chars.len() && chars.len() - i >= 7
        invariant
            i <= chars.len(),
            chars@ == name@,
            mark@ == ".noload"@,
            mark@.len() == 7,
            forall|k: int|
                0 <= k < i && k + 7 <= name@.len() ==> #[trigger] name@.subrange(k, k + 7)
                    != ".noload"@,
        decreases chars.len() - i,
    {
        let mut j: usize = 0;
        while j < 7 && chars[i + j] == mark[j]
            invariant
                j <= 7,
                i + 7 <= chars.len(),
                chars@ == name@,
                mark@.len() == 7,
                forall|k: int| 0 <= k < j ==> chars[i + k] == mark[k],
            decreases 7 - j,
        {
            j += 1;
        }
        if j == 7 {
            assert(name@.subrange(i as int, i + 7) =~= mark@);
            return true;
        }
        assert(name@.subrange(i as int, i + 7)[j as int] == chars[i + j]);
        i += 1;
    }
    false
}

fn searched(which: Which, name: &str) -> (r: bool)
    ensures
        r == searches(which, name@),
{
    match which {
        Which::Any => true,
        Which::Noload => is_noload_section(name),
        Which::Ordinary => !is_noload_section(name),
    }
}

impl Section {
    /// Checks if `addr` falls within this section's virtual address range.
    fn contains(&self, addr: u32) -> (r: bool)
        ensures
            r == self@.contains(addr),
    {
        self.addr <= addr && addr < self.end
    }

    /// Reads the NUL-terminated string starting at `addr` within this section's
    /// data. Returns `None` if `addr` is out of range or the string is empty.
    pub fn read_cstr(&self, addr: u32) -> (r: Option<&str>)
        ensures
            match r {
                Some(s) => self@.cstr(addr) == Some(s@),
                None => self@.cstr(addr) is None,
            },
            addr < self.addr || addr - self.addr >= self.data@.len() ==> r is None,
    {
        if addr < self.addr {
            return None;
        }
        let off = (addr - self.addr) as usize;
        if off >= self.data.len() || self.data[off] == 0 {
            return None;
        }
        let end = nul_stop(self.data.as_slice(), off);
        text_of(vstd::slice::slice_subrange(self.data.as_slice(), off, end))
    }
}

impl ElfStrings {
    /// The sections and the symbols stand in the order of their addresses.
    #[verifier::type_invariant]
    spec fn ordered(self) -> bool {
        &&& is_sorted(section_views(self.sections@), section_key())
        &&& is_sorted(symbol_views(self.symbols@), symbol_key())
    }

    /// Finds the NUL-terminated string at `addr`, restricting the search to the
    /// given sections.
    ///
    /// If multiple sections contain `addr` but disagree on the string value,
    /// returns `None` (ambiguous).
    fn read_cstr_from(&self, addr: u32, which: Which) -> (r: Option<&str>)
        ensures
            match r {
                Some(s) => self@.cstr(addr, which) == Some(s@),
                None => self@.cstr(addr, which) is None,
            },
    {
        let at = addr.wrapping_sub(self.address_slide);
        let ghost views = self@.sections;
        let mut found: Option<&str> = None;
        let mut i: usize = 0;
        while i < self.sections.len()
            invariant
                i <= self.sections.len(),
                views == self@.sections,
                at == unslid(addr, self@.slide),
                match found {
                    Some(t) => all_read(views.take(i as int), at, which, t@),
                    None => forall|k: int|
                        0 <= k < i ==> !((#[trigger] views[k]).contains(at) && searches(
                            which,
                            views[k].name,
                        )),
                },
            decreases self.sections.len() - i,
        {
            let sec = &self.sections[i];
            assert(views[i as int] == sec@);
            assert(views.take(i + 1)[i as int] == sec@);
            assert(forall|k: int| 0 <= k < i ==> #[trigger] views.take(i + 1)[k] == views.take(
                i as int,
            )[k]);
            if sec.contains(at) && searched(which, sec.name.as_str()) {
                match sec.read_cstr(at) {
                    None => {
                        assert(forall|t: Seq<char>| !all_read(views, at, which, t));
                        return None;
                    },
                    Some(s) => {
                        match found {
                            Some(prev) => {
                                if !same_text(prev, s) {
                                    proof {
                                        let j = choose|j: int|
                                            0 <= j < i && (#[trigger] views.take(
                                                i as int,
                                            )[j]).contains(at) && searches(
                                                which,
                                                views.take(i as int)[j].name,
                                            );
                                        assert(views[j] == views.take(i as int)[j]);
                                        assert(views[j].cstr(at) == Some(prev@));
                                        assert(forall|t: Seq<char>|
                                            !all_read(views, at, which, t));
                                    }
                                    return None;
                                }
                                proof {
                                    let j = choose|j: int|
                                        0 <= j < i && (#[trigger] views.take(i as int)[j]).contains(
                                            at,
                                        ) && searches(which, views.take(i as int)[j].name);
                                    assert(views.take(i + 1)[j] == views.take(i as int)[j]);
                                }
                            },
                            None => {
                                found = Some(s);
                            },
                        }
                        assert(all_read(views.take(i + 1), at, which, s@));
                    },
                }
            } else if found.is_some() {
                proof {
                    let t = found->0;
                    let j = choose|j: int|
                        0 <= j < i && (#[trigger] views.take(i as int)[j]).contains(at)
                            && searches(which, views.take(i as int)[j].name);
                    assert(views.take(i + 1)[j] == views.take(i as int)[j]);
                    assert(all_read(views.take(i + 1), at, which, t@));
                }
            }
            i += 1;
        }
        assert(views.take(i as int) =~= views);
        proof {
            if found.is_some() {
                let t = found->0;
                assert(all_read(views, at, which, t@));
                let k = choose|k: int|
                    0 <= k < views.len() && (#[trigger] views[k]).contains(at) && searches(
                        which,
                        views[k].name,
                    );
                let u = choose|u: Seq<char>| all_read(views, at, which, u);
                assert(views[k].cstr(at) == Some(t@));
                assert(views[k].cstr(at) == Some(u));
            }
        }
        found
    }

    /// Read a NUL-terminated string starting at `addr`, if it falls inside a
    /// known section. Returns `None` for unmapped addresses or empty strings.
    ///
    /// Searches all loaded sections regardless of section type or name.
    /// If the same address maps to different strings in different sections,
    /// returns `None` (ambiguous).
    pub fn read_cstr(&self, addr: u32) -> (r: Option<&str>)
        ensures
            match r {
                Some(s) => self@.cstr(addr, Which::Any) == Some(s@),
                None => self@.cstr(addr, Which::Any) is None,
            },
    {
        self.read_cstr_from(addr, Which::Any)
    }

    /// Set the runtime image slide used to normalize host-process pointers
    /// before looking them up in an ELF or Mach-O file.
    pub fn set_address_slide(&mut self, slide: u32)
        ensures
            final(self)@ == (ElfV { slide, ..old(self)@ }),
    {
        proof {
            use_type_invariant(&*self);
        }
        self.address_slide = slide;
    }

    /// Read a format string. C macro logs place formats in ESP-IDF's ELF-only
    /// no-load section family. The C++ header wrapper accepts normal function
    /// string arguments, so those literals remain in ordinary string-bearing
    /// sections and are used as a fallback.
    ///
    /// First searches sections whose names contain `.noload`; if no match is
    /// found, falls back to any loaded section.
    pub fn read_format(&self, addr: u32) -> (r: Option<&str>)
        ensures
            match r {
                Some(s) => self@.format(addr) == Some(s@),
                None => self@.format(addr) is None,
            },
    {
        match self.read_cstr_from(addr, Which::Noload) {
            Some(s) => Some(s),
            None => self.read_cstr_from(addr, Which::Any),
        }
    }

    /// Read a normal tag string. Tags are expected in ordinary string-bearing
    /// sections, not the no-load format-string section.
    ///
    /// Searches all sections whose names do NOT contain `.noload`.
    pub fn read_tag(&self, addr: u32) -> (r: Option<&str>)
        ensures
            match r {
                Some(s) => self@.tag(addr) == Some(s@),
                None => self@.tag(addr) is None,
            },
    {
        self.read_cstr_from(addr, Which::Ordinary)
    }
}

/// Sections are ordered by start address.
pub open spec fn section_key() -> spec_fn(SectionV) -> int {
    |s: SectionV| s.addr as int
}

/// Symbols are ordered by start address; of those at one address the larger
/// comes first.
pub open spec fn symbol_key() -> spec_fn(SymbolV) -> int {
    |s: SymbolV| s.addr * 0x1_0000_0000 - s.size
}

// ---- Symbols ----

/// Address of the first symbol at or after `j` that starts above `addr`; the
/// greatest address if there is none.
pub open spec fn next_above(symbols: Seq<SymbolV>, j: int, addr: u32) -> u32
    decreases symbols.len() - j,
{
    if j < 0 || j >= symbols.len() {
        u32::MAX
    } else if symbols[j].addr > addr {
        symbols[j].addr
    } else {
        next_above(symbols, j + 1, addr)
    }
}

/// Where symbol `i` ends: behind its size, or, if that is unknown, where the next
/// symbol starts.
pub open spec fn symbol_end(symbols: Seq<SymbolV>, i: int) -> int {
    let sym = symbols[i];
    if sym.size == 0 {
        next_above(symbols, i + 1, sym.addr) as int
    } else if sym.addr + sym.size <= u32::MAX {
        sym.addr + sym.size
    } else {
        u32::MAX as int
    }
}

/// True if symbol `i` contains `addr`.
pub open spec fn symbol_holds(symbols: Seq<SymbolV>, i: int, addr: u32) -> bool {
    symbols[i].addr <= addr < symbol_end(symbols, i)
}

/// The last of the first `n` symbols that contains `addr`.
pub open spec fn last_holding(symbols: Seq<SymbolV>, n: int, addr: u32) -> Option<int>
    decreases n,
{
    if n <= 0 {
        None
    } else if symbol_holds(symbols, n - 1, addr) {
        Some(n - 1)
    } else {
        last_holding(symbols, n - 1, addr)
    }
}

/// A resolved symbol.
#[verifier::ext_equal]
pub struct ResolvedSymbolV {
    pub name: Seq<char>,
    pub address: u32,
    pub offset: u32,
}

impl<'a> View for ResolvedSymbol<'a> {
    type V = ResolvedSymbolV;

    open spec fn view(&self) -> ResolvedSymbolV {
        ResolvedSymbolV { name: self.name@, address: self.address, offset: self.offset }
    }
}

impl ElfV {
    /// The function that contains `addr`, and how far into it `addr` lies.
    pub open spec fn symbol(self, addr: u32) -> Option<ResolvedSymbolV> {
        let at = unslid(addr, self.slide);
        match last_holding(self.symbols, self.symbols.len() as int, at) {
            None => None,
            Some(i) => Some(
                ResolvedSymbolV {
                    name: self.symbols[i].name,
                    address: self.symbols[i].addr,
                    offset: (at - self.symbols[i].addr) as u32,
                },
            ),
        }
    }
}

proof fn lemma_last_holding(symbols: Seq<SymbolV>, p: int, n: int, addr: u32)
    requires
        0 <= p <= n <= symbols.len(),
        forall|k: int| p <= k < n ==> (#[trigger] symbols[k]).addr > addr,
    ensures
        last_holding(symbols, n, addr) == last_holding(symbols, p, addr),
    decreases n - p,
{
    if p < n {
        assert(symbols[n - 1].addr > addr);
        lemma_last_holding(symbols, p, n - 1, addr);
    }
}

impl ElfStrings {
    fn next_start(&self, from: usize, addr: u32) -> (r: u32)
        requires
            from <= self@.symbols.len(),
        ensures
            r == next_above(self@.symbols, from as int, addr),
    {
        let mut j: usize = from;
        while j < self.symbols.len()
            invariant
                j <= self.symbols.len(),
                next_above(self@.symbols, from as int, addr) == next_above(
                    self@.symbols,
                    j as int,
                    addr,
                ),
            decreases self.symbols.len() - j,
        {
            assert(self@.symbols[j as int] == self.symbols[j as int]@);
            if self.symbols[j].addr > addr {
                return self.symbols[j].addr;
            }
            j += 1;
        }
        u32::MAX
    }

    /// Number of symbols that start at or below `addr`.
    fn partition_point(&self, addr: u32) -> (r: usize)
        ensures
            r <= self@.symbols.len(),
            forall|k: int| r <= k < self@.symbols.len() ==> (#[trigger] self@.symbols[k]).addr
                > addr,
    {
        proof {
            use_type_invariant(self);
        }
        let ghost views = self@.symbols;
        let mut lo: usize = 0;
        let mut hi: usize = self.symbols.len();
        while lo < hi
            invariant
                lo <= hi <= self.symbols.len(),
                views == self@.symbols,
                is_sorted(views, symbol_key()),
                forall|k: int| hi <= k < views.len() ==> (#[trigger] views[k]).addr > addr,
            decreases hi - lo,
        {
            let mid = lo + (hi - lo) / 2;
            assert(views[mid as int] == self.symbols[mid as int]@);
            if self.symbols[mid].addr <= addr {
                lo = mid + 1;
            } else {
                assert forall|k: int| mid <= k < views.len() implies (#[trigger] views[k]).addr
                    > addr by {
                    let key = symbol_key();
                    assert(key(views[mid as int]) <= key(views[k]));
                }
                hi = mid;
            }
        }
        hi
    }

    /// Resolve an instruction address to the nearest containing function
    /// symbol. If the symbol has no size, the next symbol address bounds it.
    ///
    /// Uses binary search over the sorted symbol list. Returns the containing
    /// function name, its base address, and the offset from that base to `addr`.
    pub fn resolve_symbol(&self, addr: u32) -> (r: Option<ResolvedSymbol<'_>>)
        ensures
            match r {
                Some(s) => self@.symbol(addr) == Some(s@),
                None => self@.symbol(addr) is None,
            },
    {
        let at = addr.wrapping_sub(self.address_slide);
        let ghost views = self@.symbols;
        let mut i = self.partition_point(at);
        proof {
            lemma_last_holding(views, i as int, views.len() as int, at);
        }
        while i > 0
            invariant
                i <= self.symbols.len(),
                views == self@.symbols,
                at == unslid(addr, self@.slide),
                last_holding(views, views.len() as int, at) == last_holding(views, i as int, at),
            decreases i,
        {
            i -= 1;
            let sym = &self.symbols[i];
            assert(views[i as int] == sym@);
            let end = if sym.size > 0 {
                sym.addr.saturating_add(sym.size)
            } else {
                self.next_start(i + 1, sym.addr)
            };
            if sym.addr <= at && at < end {
                return Some(
                    ResolvedSymbol {
                        name: sym.name.as_str(),
                        address: sym.addr,
                        offset: at - sym.addr,
                    },
                );
            }
        }
        None
    }

    /// The address under which debug information knows `addr`.
    pub fn location_address(&self, addr: u32) -> (r: u32)
        ensures
            r == unslid(addr, self@.slide),
    {
        addr.wrapping_sub(self.address_slide)
    }
}

/// A source location as a record: debug information may know a line without
/// knowing the file, which is no location.
pub fn source_location(file: Option<String>, line: Option<u32>) -> (r: Option<SourceLocation>)
    ensures
        match file {
            Some(f) => r matches Some(l) && l.file@ == f@ && l.line == line,
            None => r is None,
        },
{
    match file {
        Some(file) => Some(SourceLocation { file, line }),
        None => None,
    }
}

// ---- Building the tables ----

/// Sorts sections by their start address.
fn sort_sections(list: Vec<Section>) -> (r: Vec<Section>)
    ensures
        section_views(r@) == sorted(section_views(list@), section_key()),
{
    let ghost whole = section_views(list@);
    let mut rest = list;
    let mut out: Vec<Section> = Vec::new();
    assert(whole.skip(whole.len() as int) =~= section_views(out@));
    while rest.len() > 0
        invariant
            rest.len() <= whole.len(),
            section_views(rest@) == whole.take(rest.len() as int),
            section_views(out@) == sorted(whole.skip(rest.len() as int), section_key()),
        decreases rest.len(),
    {
        let ghost before = rest@;
        let x = rest.pop().unwrap();
        let ghost n = rest.len() as int;
        let ghost old_views = section_views(out@);
        let mut p: usize = 0;
        while p < out.len() && out[p].addr < x.addr
            invariant
                p <= out.len(),
                old_views == section_views(out@),
                forall|k: int| 0 <= k < p ==> (#[trigger] old_views[k]).addr < x.addr,
            decreases out.len() - p,
        {
            assert(old_views[p as int] == out[p as int]@);
            p += 1;
        }
        proof {
            let key = section_key();
            if p < out.len() {
                assert(old_views[p as int] == out[p as int]@);
            }
            assert(section_views(before)[n] == x@);
            assert(x@ == whole[n]);
            assert(whole.skip(n).skip(1) =~= whole.skip(n + 1));
            assert(whole.skip(n)[0] == x@);
            lemma_placed_at(x@, old_views, p as int, key);
            assert(section_views(rest@) =~= whole.take(n));
        }
        out.insert(p, x);
        assert(section_views(out@) =~= old_views.insert(p as int, x@));
    }
    assert(whole.skip(0) =~= whole);
    out
}

/// True if `a` comes before `b` and is not equal to it in the order of symbols.
fn symbol_before(a: &Symbol, b: &Symbol) -> (r: bool)
    ensures
        r == (symbol_key()(a@) < symbol_key()(b@)),
{
    a.addr < b.addr || (a.addr == b.addr && a.size > b.size)
}

/// Sorts symbols by start address, larger ones first.
fn sort_symbols(list: Vec<Symbol>) -> (r: Vec<Symbol>)
    ensures
        symbol_views(r@) == sorted(symbol_views(list@), symbol_key()),
{
    let ghost whole = symbol_views(list@);
    let mut rest = list;
    let mut out: Vec<Symbol> = Vec::new();
    assert(whole.skip(whole.len() as int) =~= symbol_views(out@));
    while rest.len() > 0
        invariant
            rest.len() <= whole.len(),
            symbol_views(rest@) == whole.take(rest.len() as int),
            symbol_views(out@) == sorted(whole.skip(rest.len() as int), symbol_key()),
        decreases rest.len(),
    {
        let ghost before = rest@;
        let x = rest.pop().unwrap();
        let ghost n = rest.len() as int;
        let ghost old_views = symbol_views(out@);
        let ghost key = symbol_key();
        let mut p: usize = 0;
        while p < out.len() && symbol_before(&out[p], &x)
            invariant
                p <= out.len(),
                key == symbol_key(),
                old_views == symbol_views(out@),
                forall|k: int| 0 <= k < p ==> key(#[trigger] old_views[k]) < key(x@),
            decreases out.len() - p,
        {
            assert(old_views[p as int] == out[p as int]@);
            p += 1;
        }
        proof {
            if p < out.len() {
                assert(old_views[p as int] == out[p as int]@);
            }
            assert(symbol_views(before)[n] == x@);
            assert(x@ == whole[n]);
            assert(whole.skip(n).skip(1) =~= whole.skip(n + 1));
            assert(whole.skip(n)[0] == x@);
            lemma_placed_at(x@, old_views, p as int, key);
            assert(symbol_views(rest@) =~= whole.take(n));
        }
        out.insert(p, x);
        assert(symbol_views(out@) =~= old_views.insert(p as int, x@));
    }
    assert(whole.skip(0) =~= whole);
    out
}

/// The image that holds these sections and symbols.
pub open spec fn image(sections: Seq<SectionV>, symbols: Seq<SymbolV>) -> ElfV {
    ElfV {
        sections: sorted(sections, section_key()),
        symbols: sorted(symbols, symbol_key()),
        slide: 0,
    }
}

impl ElfStrings {
    /// A table of these sections and symbols, sorted by address for binary search
    /// at lookup time, with no slide.
    pub fn from_tables(sections: Vec<Section>, symbols: Vec<Symbol>) -> (r: Self)
        ensures
            r@ == image(section_views(sections@), symbol_views(symbols@)),
    {
        proof {
            sorted_is_a_sorted_permutation(section_views(sections@), section_key());
            sorted_is_a_sorted_permutation(symbol_views(symbols@), symbol_key());
        }
        ElfStrings {
            sections: sort_sections(sections),
            symbols: sort_symbols(symbols),
            address_slide: 0,
        }
    }
}

// ---- Reading an image ----

/// What kind of file an image is.
#[derive(Debug, Clone, Copy, PartialEq, Eq, Structural)]
pub enum ImageKind {
    /// An ELF file.
    Elf,
    /// A Mach-O file for one architecture.
    Mach,
    /// A Mach-O container for several architectures.
    FatMach,
    /// Anything else that is an executable or an archive, or none of these.
    Other,
}

/// An ELF section header.
#[derive(Debug, Clone, PartialEq, Eq)]
pub struct SectionHeader {
    /// Name, where the string table has one.
    pub name: Option<String>,
    /// `sh_type`.
    pub kind: u32,
    /// `sh_addr`.
    pub addr: u64,
    /// `sh_offset`.
    pub offset: u64,
    /// `sh_size`.
    pub size: u64,
}

/// A text that may be missing.
pub open spec fn optional_text(s: Option<String>) -> Option<Seq<char>> {
    match s {
        Some(t) => Some(t@),
        None => None,
    }
}

/// An ELF section header.
#[verifier::ext_equal]
pub struct SectionHeaderV {
    pub name: Option<Seq<char>>,
    pub kind: u32,
    pub addr: u64,
    pub offset: u64,
    pub size: u64,
}

impl View for SectionHeader {
    type V = SectionHeaderV;

    open spec fn view(&self) -> SectionHeaderV {
        SectionHeaderV {
            name: optional_text(self.name),
            kind: self.kind,
            addr: self.addr,
            offset: self.offset,
            size: self.size,
        }
    }
}

/// The headers of a list.
pub open spec fn header_views(s: Seq<SectionHeader>) -> Seq<SectionHeaderV> {
    Seq::new(s.len(), |i: int| s[i]@)
}

/// An entry of an ELF symbol table.
#[derive(Debug, Clone, PartialEq, Eq)]
pub struct RawSymbol {
    /// Name, where the string table has one.
    pub name: Option<String>,
    /// `st_value`.
    pub value: u64,
    /// `st_size`.
    pub size: u64,
    /// The type of `st_info`.
    pub kind: u8,
}

/// An entry of an ELF symbol table.
#[verifier::ext_equal]
pub struct RawSymbolV {
    pub name: Option<Seq<char>>,
    pub value: u64,
    pub size: u64,
    pub kind: u8,
}

impl View for RawSymbol {
    type V = RawSymbolV;

    open spec fn view(&self) -> RawSymbolV {
        RawSymbolV {
            name: optional_text(self.name),
            value: self.value,
            size: self.size,
            kind: self.kind,
        }
    }
}

/// The entries of a list.
pub open spec fn raw_views(s: Seq<RawSymbol>) -> Seq<RawSymbolV> {
    Seq::new(s.len(), |i: int| s[i]@)
}

/// A section of a Mach-O image.
#[derive(Debug, Clone, PartialEq, Eq)]
pub struct MachSection {
    /// Segment name, where it is text.
    pub segment: Option<String>,
    /// Section name, where it is text.
    pub name: Option<String>,
    /// Virtual address.
    pub addr: u64,
    /// File bytes.
    pub data: Vec<u8>,
}

/// A section of a Mach-O image.
#[verifier::ext_equal]
pub struct MachSectionV {
    pub segment: Option<Seq<char>>,
    pub name: Option<Seq<char>>,
    pub addr: u64,
    pub data: Seq<u8>,
}

impl View for MachSection {
    type V = MachSectionV;

    open spec fn view(&self) -> MachSectionV {
        MachSectionV {
            segment: optional_text(self.segment),
            name: optional_text(self.name),
            addr: self.addr,
            data: self.data@,
        }
    }
}

/// The sections of a list.
pub open spec fn mach_section_views(s: Seq<MachSection>) -> Seq<MachSectionV> {
    Seq::new(s.len(), |i: int| s[i]@)
}

/// The sections of a list, or the message of an error.
pub open spec fn mach_sections_say(r: Result<Vec<MachSection>, String>) -> Result<
    Seq<MachSectionV>,
    Seq<char>,
> {
    match r {
        Ok(list) => Ok(mach_section_views(list@)),
        Err(e) => Err(e@),
    }
}

/// An entry of a Mach-O symbol table.
#[derive(Debug, Clone, PartialEq, Eq)]
pub struct MachSymbol {
    /// Name.
    pub name: String,
    /// `n_value`.
    pub value: u64,
    /// True for an entry of the debugger.
    pub stab: bool,
    /// The type bits of `n_type`.
    pub kind: u8,
}

/// An entry of a Mach-O symbol table.
#[verifier::ext_equal]
pub struct MachSymbolV {
    pub name: Seq<char>,
    pub value: u64,
    pub stab: bool,
    pub kind: u8,
}

impl View for MachSymbol {
    type V = MachSymbolV;

    open spec fn view(&self) -> MachSymbolV {
        MachSymbolV { name: self.name@, value: self.value, stab: self.stab, kind: self.kind }
    }
}

/// The entries of a list.
pub open spec fn mach_symbol_views(s: Seq<MachSymbol>) -> Seq<MachSymbolV> {
    Seq::new(s.len(), |i: int| s[i]@)
}

/// What `goblin::Object::parse` takes `bytes` for: a kind, or the message of its
/// error.
pub uninterp spec fn image_kind(bytes: Seq<u8>) -> Result<ImageKind, Seq<char>>;

/// The section headers that `goblin` reads in an ELF file.
pub uninterp spec fn elf_sections(bytes: Seq<u8>) -> Seq<SectionHeaderV>;

/// The entries that `goblin` reads in the symbol table of an ELF file.
pub uninterp spec fn elf_symbols(bytes: Seq<u8>) -> Seq<RawSymbolV>;

/// The entries that `goblin` reads in the dynamic symbol table of an ELF file.
pub uninterp spec fn elf_dynamic_symbols(bytes: Seq<u8>) -> Seq<RawSymbolV>;

/// The sections that `goblin` reads in a Mach-O file, segment by segment, or the
/// message of the first error among them.
pub uninterp spec fn mach_sections(bytes: Seq<u8>) -> Result<Seq<MachSectionV>, Seq<char>>;

/// The entries that `goblin` can read in the symbol table of a Mach-O file.
pub uninterp spec fn mach_symbols(bytes: Seq<u8>) -> Seq<MachSymbolV>;

/// A kind, or the text of an error.
pub open spec fn kind_says(r: Result<ImageKind, String>) -> Result<ImageKind, Seq<char>> {
    match r {
        Ok(k) => Ok(k),
        Err(e) => Err(e@),
    }
}

/// `goblin::Object::parse`: which kind of file `bytes` is, or the message of the
/// error. It depends on the bytes alone. It adds up the address of the entry point
/// of a Mach-O file without a test, so that address has to fit. What it computes for
/// its log records alone is left out of account: it does so only where the program
/// has set a logger of the `log` crate to the debug level.
#[verifier::external_body]
fn read_kind(bytes: &[u8]) -> (r: Result<ImageKind, String>)
    requires
        entry_fits(bytes@),
    ensures
        kind_says(r) == image_kind(bytes@),
{
    match goblin::Object::parse(bytes) {
        Ok(goblin::Object::Elf(_)) => Ok(ImageKind::Elf),
        Ok(goblin::Object::Mach(goblin::mach::Mach::Binary(_))) => Ok(ImageKind::Mach),
        Ok(goblin::Object::Mach(goblin::mach::Mach::Fat(_))) => Ok(ImageKind::FatMach),
        Ok(_) => Ok(ImageKind::Other),
        Err(e) => Err(e.to_string()),
    }
}

/// The section headers of `goblin::elf::Elf::parse`, each with the name that its
/// section-header string table gives. They depend on the bytes alone.
#[verifier::external_body]
fn read_elf_sections(bytes: &[u8]) -> (r: Vec<SectionHeader>)
    ensures
        header_views(r@) == elf_sections(bytes@),
{
    match goblin::elf::Elf::parse(bytes) {
        Ok(elf) => elf.section_headers.iter().map(|h| SectionHeader {
            name: elf.shdr_strtab.get_at(h.sh_name).map(|s| s.to_string()),
            kind: h.sh_type,
            addr: h.sh_addr,
            offset: h.sh_offset,
            size: h.sh_size,
        }).collect(),
        Err(_) => Vec::new(),
    }
}

/// The entries of the symbol table of `goblin::elf::Elf::parse`, each with the
/// name that its string table gives. They depend on the bytes alone.
#[verifier::external_body]
fn read_elf_symbols(bytes: &[u8]) -> (r: Vec<RawSymbol>)
    ensures
        raw_views(r@) == elf_symbols(bytes@),
{
    match goblin::elf::Elf::parse(bytes) {
        Ok(elf) => elf.syms.iter().map(|s| RawSymbol {
            name: elf.strtab.get_at(s.st_name).map(|n| n.to_string()),
            value: s.st_value,
            size: s.st_size,
            kind: s.st_type(),
        }).collect(),
        Err(_) => Vec::new(),
    }
}

/// The entries of the dynamic symbol table of `goblin::elf::Elf::parse`, each with
/// the name that its string table gives. They depend on the bytes alone.
#[verifier::external_body]
fn read_elf_dynamic_symbols(bytes: &[u8]) -> (r: Vec<RawSymbol>)
    ensures
        raw_views(r@) == elf_dynamic_symbols(bytes@),
{
    match goblin::elf::Elf::parse(bytes) {
        Ok(elf) => elf.dynsyms.iter().map(|s| RawSymbol {
            name: elf.dynstrtab.get_at(s.st_name).map(|n| n.to_string()),
            value: s.st_value,
            size: s.st_size,
            kind: s.st_type(),
        }).collect(),
        Err(_) => Vec::new(),
    }
}

/// The sections of a thin image of `goblin::mach::Mach::parse`, segment by segment,
/// or the message of the first error among them. They depend on the bytes alone. The
/// address of the entry point has to fit, as for `read_kind`.
#[verifier::external_body]
fn read_mach_sections(bytes: &[u8]) -> (r: Result<Vec<MachSection>, String>)
    requires
        entry_fits(bytes@),
    ensures
        mach_sections_say(r) == mach_sections(bytes@),
{
    match goblin::mach::Mach::parse(bytes) {
        Ok(goblin::mach::Mach::Binary(mach)) => mach.segments.iter().flatten().map(
            |item| item.map(|(s, data)| MachSection {
                segment: s.segname().ok().map(|n| n.to_string()),
                name: s.name().ok().map(|n| n.to_string()),
                addr: s.addr,
                data: data.to_vec(),
            }).map_err(|e| e.to_string()),
        ).collect(),
        _ => Ok(Vec::new()),
    }
}

/// The entries of the symbol table of a thin image of `goblin::mach::Mach::parse`,
/// without those that it cannot read. They depend on the bytes alone. The address of
/// the entry point has to fit, as for `read_kind`.
#[verifier::external_body]
fn read_mach_symbols(bytes: &[u8]) -> (r: Vec<MachSymbol>)
    requires
        entry_fits(bytes@),
    ensures
        mach_symbol_views(r@) == mach_symbols(bytes@),
{
    match goblin::mach::Mach::parse(bytes) {
        Ok(goblin::mach::Mach::Binary(mach)) => mach.symbols().flatten().map(
            |(name, s)| MachSymbol {
                name: name.to_string(),
                value: s.n_value,
                stab: s.is_stab(),
                kind: s.get_type(),
            },
        ).collect(),
        _ => Vec::new(),
    }
}

// ---- Selecting sections and symbols ----

/// `sh_type` of a section that occupies no file space.
pub const SHT_NOBITS: u32 = 8;

/// Type of a function symbol in ELF.
pub const STT_FUNC: u8 = 2;

/// Type of a symbol that is defined in a section, in Mach-O.
pub const N_SECT: u8 = 0xe;

/// A text, or the empty one.
pub open spec fn text_or_empty(s: Option<Seq<char>>) -> Seq<char> {
    match s {
        Some(t) => t,
        None => Seq::empty(),
    }
}

/// The section that a header stands for: one with bytes in the file, and with a
/// 32-bit address other than 0 or with a no-load name at address 0.
pub open spec fn section_of(file: Seq<u8>, h: SectionHeaderV) -> Option<SectionV> {
    let name = text_or_empty(h.name);
    if h.size == 0 || h.kind == SHT_NOBITS || (h.addr == 0 && !is_noload(name)) || h.addr
        > u32::MAX || h.offset >= file.len() || h.offset + h.size > file.len() {
        None
    } else {
        let addr = h.addr as u32;
        let size = if h.size <= u32::MAX {
            h.size as u32
        } else {
            0
        };
        Some(
            SectionV {
                name,
                addr,
                end: if addr + size <= u32::MAX {
                    (addr + size) as u32
                } else {
                    u32::MAX
                },
                data: file.subrange(h.offset as int, h.offset + h.size),
            },
        )
    }
}

/// The sections that a list of headers stands for.
pub open spec fn sections_of(file: Seq<u8>, headers: Seq<SectionHeaderV>) -> Seq<SectionV>
    decreases headers.len(),
{
    if headers.len() == 0 {
        Seq::empty()
    } else {
        let front = sections_of(file, headers.drop_last());
        match section_of(file, headers.last()) {
            Some(s) => front.push(s),
            None => front,
        }
    }
}

/// True if a symbol of this address and name is in the list.
pub open spec fn is_listed(list: Seq<SymbolV>, addr: u32, name: Seq<char>) -> bool {
    exists|k: int|
        0 <= k < list.len() && (#[trigger] list[k]).addr == addr && list[k].name == name
}

/// `list` with one more symbol, unless its address and name are listed already.
pub open spec fn with_symbol(list: Seq<SymbolV>, sym: SymbolV) -> Seq<SymbolV> {
    if is_listed(list, sym.addr, sym.name) {
        list
    } else {
        list.push(sym)
    }
}

/// The function that an ELF symbol stands for: one with a name and a value that is
/// a 32-bit address other than 0.
pub open spec fn elf_symbol_of(raw: RawSymbolV) -> Option<SymbolV> {
    let name = text_or_empty(raw.name);
    if raw.value == 0 || raw.kind != STT_FUNC || name.len() == 0 || raw.value > u32::MAX {
        None
    } else {
        Some(
            SymbolV {
                name,
                addr: raw.value as u32,
                size: if raw.size <= u32::MAX {
                    raw.size as u32
                } else {
                    0
                },
            },
        )
    }
}

/// `list` with the functions of a symbol table, each address and name once.
pub open spec fn with_elf_symbols(list: Seq<SymbolV>, raws: Seq<RawSymbolV>) -> Seq<SymbolV>
    decreases raws.len(),
{
    if raws.len() == 0 {
        list
    } else {
        let front = with_elf_symbols(list, raws.drop_last());
        match elf_symbol_of(raws.last()) {
            Some(sym) => with_symbol(front, sym),
            None => front,
        }
    }
}

/// The symbol that a Mach-O entry stands for: one with a name and a value, defined
/// in a section, and none of the debugger's. Addresses are reduced to their low 32
/// bits; sizes are unknown.
pub open spec fn mach_symbol_of(m: MachSymbolV) -> Option<SymbolV> {
    if m.name.len() == 0 || m.value == 0 || m.stab || m.kind != N_SECT {
        None
    } else {
        Some(SymbolV { name: m.name, addr: m.value as u32, size: 0 })
    }
}

/// The symbols of a Mach-O table, each address and name once.
pub open spec fn mach_symbols_of(raws: Seq<MachSymbolV>) -> Seq<SymbolV>
    decreases raws.len(),
{
    if raws.len() == 0 {
        Seq::empty()
    } else {
        let front = mach_symbols_of(raws.drop_last());
        match mach_symbol_of(raws.last()) {
            Some(sym) => with_symbol(front, sym),
            None => front,
        }
    }
}

/// The section that a Mach-O section stands for, named by segment and section.
pub open spec fn mach_section_of(m: MachSectionV) -> Option<SectionV> {
    if m.data.len() == 0 {
        None
    } else {
        let addr = m.addr as u32;
        Some(
            SectionV {
                name: text_or_empty(m.segment) + ","@ + text_or_empty(m.name),
                addr,
                end: if addr + m.data.len() <= u32::MAX {
                    (addr + m.data.len()) as u32
                } else {
                    u32::MAX
                },
                data: m.data,
            },
        )
    }
}

/// The sections that the sections of a Mach-O image stand for.
pub open spec fn mach_sections_of(list: Seq<MachSectionV>) -> Seq<SectionV>
    decreases list.len(),
{
    if list.len() == 0 {
        Seq::empty()
    } else {
        let front = mach_sections_of(list.drop_last());
        match mach_section_of(list.last()) {
            Some(s) => front.push(s),
            None => front,
        }
    }
}

/// The image of an ELF file, given what its tables hold.
pub open spec fn elf_image(
    file: Seq<u8>,
    headers: Seq<SectionHeaderV>,
    symbols: Seq<RawSymbolV>,
    dynamic: Seq<RawSymbolV>,
) -> ElfV {
    image(
        sections_of(file, headers),
        with_elf_symbols(with_elf_symbols(Seq::empty(), symbols), dynamic),
    )
}

/// The image of a Mach-O file, given what its tables hold.
pub open spec fn mach_image(
    sections: Result<Seq<MachSectionV>, Seq<char>>,
    symbols: Seq<MachSymbolV>,
) -> Result<ElfV, Seq<char>> {
    match sections {
        Err(e) => Err("Mach-O section parse: "@ + e),
        Ok(list) => Ok(image(mach_sections_of(list), mach_symbols_of(symbols))),
    }
}

/// The image that `bytes` hold, or why there is none.
pub open spec fn image_of(bytes: Seq<u8>) -> Result<ElfV, Seq<char>> {
    if !entry_fits(bytes) {
        Err("executable parse: Mach-O entry point is out of range"@)
    } else {
        parsed_image(bytes)
    }
}

/// The image that `bytes` hold, as `goblin` parses them.
pub open spec fn parsed_image(bytes: Seq<u8>) -> Result<ElfV, Seq<char>> {
    match image_kind(bytes) {
        Err(e) => Err("executable parse: "@ + e),
        Ok(ImageKind::Elf) => Ok(
            elf_image(
                bytes,
                elf_sections(bytes),
                elf_symbols(bytes),
                elf_dynamic_symbols(bytes),
            ),
        ),
        Ok(ImageKind::Mach) => mach_image(mach_sections(bytes), mach_symbols(bytes)),
        Ok(ImageKind::FatMach) => Err(
            "fat Mach-O images are not supported; use a thin executable"@,
        ),
        Ok(ImageKind::Other) => Err("unsupported executable format; expected ELF or Mach-O"@),
    }
}

fn or_empty(s: &Option<String>) -> (r: String)
    ensures
        r@ == text_or_empty(optional_text(*s)),
{
    match s {
        Some(t) => t.as_str().to_string(),
        None => String::new(),
    }
}

/// Collects a single ELF section's data into `out` if it has non-zero size
/// and is addressable. NOBITS sections (`SHT_NOBITS`) are skipped. VMA-0
/// sections are only kept when their name indicates a no-load section.
fn collect_section(file: &[u8], h: &SectionHeader, out: &mut Vec<Section>)
    ensures
        section_views(final(out)@) == (match section_of(file@, h@) {
            Some(s) => section_views(old(out)@).push(s),
            None => section_views(old(out)@),
        }),
{
    let name = or_empty(&h.name);
    if h.size == 0 || h.kind == SHT_NOBITS {
        return;
    }
    if h.addr > u32::MAX as u64 || (h.addr == 0 && !is_noload_section(name.as_str())) {
        return;
    }
    let len: u64 = file.len() as u64;
    if h.offset >= len || h.size > len - h.offset {
        return;
    }
    let start = h.offset as usize;
    let end = (h.offset + h.size) as usize;
    let mut data: Vec<u8> = Vec::new();
    data.extend_from_slice(vstd::slice::slice_subrange(file, start, end));
    assert(data@ =~= file@.subrange(start as int, end as int));
    let addr: u32 = h.addr as u32;
    let size: u32 = if h.size <= u32::MAX as u64 {
        h.size as u32
    } else {
        0
    };
    let section = Section { name, addr, end: addr.saturating_add(size), data };
    let ghost before = section_views(out@);
    out.push(section);
    assert(section_views(out@) =~= before.push(section@));
}

fn listed(list: &Vec<Symbol>, addr: u32, name: &str) -> (r: bool)
    ensures
        r == is_listed(symbol_views(list@), addr, name@),
{
    let ghost views = symbol_views(list@);
    let mut i: usize = 0;
    while i < list.len()
        invariant
            i <= list.len(),
            views == symbol_views(list@),
            forall|k: int|
                0 <= k < i ==> !((#[trigger] views[k]).addr == addr && views[k].name == name@),
        decreases list.len() - i,
    {
        assert(views[i as int] == list[i as int]@);
        if list[i].addr == addr && same_text(list[i].name.as_str(), name) {
            return true;
        }
        i += 1;
    }
    false
}

/// Adds a symbol, unless its address and name are listed already.
fn add_symbol(out: &mut Vec<Symbol>, sym: Symbol)
    ensures
        symbol_views(final(out)@) == with_symbol(symbol_views(old(out)@), sym@),
{
    if !listed(&*out, sym.addr, sym.name.as_str()) {
        let ghost before = symbol_views(out@);
        out.push(sym);
        assert(symbol_views(out@) =~= before.push(sym@));
    }
}

/// Collects function symbols from one symbol table, filtering to `STT_FUNC`
/// entries with a non-zero value and a non-empty name, and deduplicating by
/// (address, name).
fn collect_symbol_table(raws: &Vec<RawSymbol>, out: &mut Vec<Symbol>)
    ensures
        symbol_views(final(out)@) == with_elf_symbols(symbol_views(old(out)@), raw_views(raws@)),
{
    let ghost first = symbol_views(out@);
    let ghost views = raw_views(raws@);
    let mut i: usize = 0;
    while i < raws.len()
        invariant
            i <= raws.len(),
            views == raw_views(raws@),
            symbol_views(out@) == with_elf_symbols(first, views.take(i as int)),
        decreases raws.len() - i,
    {
        let raw = &raws[i];
        let name = or_empty(&raw.name);
        proof {
            assert(views.take(i + 1).drop_last() =~= views.take(i as int));
            assert(views.take(i + 1).last() == raw@);
        }
        if raw.value != 0 && raw.kind == STT_FUNC && name.as_str().unicode_len() > 0 && raw.value
            <= u32::MAX as u64 {
            let size: u32 = if raw.size <= u32::MAX as u64 {
                raw.size as u32
            } else {
                0
            };
            add_symbol(out, Symbol { name, addr: raw.value as u32, size });
        }
        i += 1;
    }
    assert(views.take(i as int) =~= views);
}

/// Collects defined Mach-O symbols. Mach-O nlist entries do not carry symbol
/// sizes, so the next symbol address provides the upper bound during lookup.
fn collect_mach_symbols(raws: &Vec<MachSymbol>) -> (out: Vec<Symbol>)
    ensures
        symbol_views(out@) == mach_symbols_of(mach_symbol_views(raws@)),
{
    let ghost views = mach_symbol_views(raws@);
    let mut out: Vec<Symbol> = Vec::new();
    let mut i: usize = 0;
    assert(views.take(0) =~= Seq::empty());
    assert(symbol_views(out@) =~= Seq::empty());
    while i < raws.len()
        invariant
            i <= raws.len(),
            views == mach_symbol_views(raws@),
            symbol_views(out@) == mach_symbols_of(views.take(i as int)),
        decreases raws.len() - i,
    {
        let m = &raws[i];
        proof {
            assert(views.take(i + 1).drop_last() =~= views.take(i as int));
            assert(views.take(i + 1).last() == m@);
        }
        if m.name.as_str().unicode_len() > 0 && m.value != 0 && !m.stab && m.kind == N_SECT {
            add_symbol(
                &mut out,
                Symbol { name: m.name.as_str().to_string(), addr: m.value as u32, size: 0 },
            );
        }
        i += 1;
    }
    assert(views.take(i as int) =~= views);
    out
}

/// Collects file-backed sections from a thin Mach-O image. on9log's wire IDs
/// are 32-bit, so the section VM addresses are intentionally reduced to their
/// low 32 bits. Linux uses a non-PIE demo; macOS replay removes the captured
/// image slide before lookup.
fn collect_mach_sections(list: &Vec<MachSection>) -> (out: Vec<Section>)
    ensures
        section_views(out@) == mach_sections_of(mach_section_views(list@)),
{
    let ghost views = mach_section_views(list@);
    let mut out: Vec<Section> = Vec::new();
    let mut i: usize = 0;
    assert(views.take(0) =~= Seq::empty());
    assert(section_views(out@) =~= Seq::empty());
    while i < list.len()
        invariant
            i <= list.len(),
            views == mach_section_views(list@),
            section_views(out@) == mach_sections_of(views.take(i as int)),
        decreases list.len() - i,
    {
        let m = &list[i];
        proof {
            assert(views.take(i + 1).drop_last() =~= views.take(i as int));
            assert(views.take(i + 1).last() == m@);
        }
        if m.data.len() > 0 {
            let mut name = or_empty(&m.segment);
            name.append(",");
            name.append(or_empty(&m.name).as_str());
            let addr = m.addr as u32;
            let size: u32 = if m.data.len() <= u32::MAX as usize {
                m.data.len() as u32
            } else {
                u32::MAX
            };
            let mut data: Vec<u8> = Vec::new();
            data.extend_from_slice(m.data.as_slice());
            assert(data@ =~= m.data@);
            let section = Section { name, addr, end: addr.saturating_add(size), data };
            let ghost before = section_views(out@);
            out.push(section);
            assert(section_views(out@) =~= before.push(section@));
        }
        i += 1;
    }
    assert(views.take(i as int) =~= views);
    out
}

/// What an attempt to open an image says.
pub open spec fn image_says(r: Result<ElfStrings, String>) -> Result<ElfV, Seq<char>> {
    match r {
        Ok(elf) => Ok(elf@),
        Err(e) => Err(e@),
    }
}

impl ElfStrings {
    /// The table of an ELF file, given what its section headers and its two symbol
    /// tables hold.
    pub fn from_elf(
        file: &[u8],
        headers: &Vec<SectionHeader>,
        symbols: &Vec<RawSymbol>,
        dynamic: &Vec<RawSymbol>,
    ) -> (r: Self)
        ensures
            r@ == elf_image(
                file@,
                header_views(headers@),
                raw_views(symbols@),
                raw_views(dynamic@),
            ),
    {
        let ghost views = header_views(headers@);
        let mut sections: Vec<Section> = Vec::new();
        let mut i: usize = 0;
        assert(section_views(sections@) =~= Seq::empty());
        while i < headers.len()
            invariant
                i <= headers.len(),
                views == header_views(headers@),
                section_views(sections@) == sections_of(file@, views.take(i as int)),
            decreases headers.len() - i,
        {
            proof {
                assert(views.take(i + 1).drop_last() =~= views.take(i as int));
                assert(views.take(i + 1).last() == headers[i as int]@);
            }
            collect_section(file, &headers[i], &mut sections);
            i += 1;
        }
        assert(views.take(i as int) =~= views);
        let mut list: Vec<Symbol> = Vec::new();
        assert(symbol_views(list@) =~= Seq::empty());
        collect_symbol_table(symbols, &mut list);
        collect_symbol_table(dynamic, &mut list);
        ElfStrings::from_tables(sections, list)
    }

    /// The table of a thin Mach-O file, given its sections, or the message of the
    /// first error among them, and what its symbol table holds.
    pub fn from_mach(
        sections: Result<Vec<MachSection>, String>,
        symbols: &Vec<MachSymbol>,
    ) -> (r: Result<Self, String>)
        ensures
            image_says(r) == mach_image(mach_sections_say(sections), mach_symbol_views(symbols@)),
    {
        match sections {
            Err(e) => {
                let mut why = "Mach-O section parse: ".to_string();
                why.append(e.as_str());
                Err(why)
            },
            Ok(list) => Ok(
                ElfStrings::from_tables(
                    collect_mach_sections(&list),
                    collect_mach_symbols(symbols),
                ),
            ),
        }
    }

    /// Parse an ELF or thin Mach-O file from raw bytes.
    ///
    /// Scans all section headers and symbol tables, sorting sections and symbols
    /// by address for binary search at lookup time. A Mach-O file whose entry point
    /// has no 64-bit address is refused before it is parsed.
    pub fn from_bytes(bytes: &[u8]) -> (r: Result<Self, String>)
        ensures
            image_says(r) == image_of(bytes@),
    {
        if !entry_point_fits(bytes) {
            return Err("executable parse: Mach-O entry point is out of range".to_string());
        }
        match read_kind(bytes) {
            Err(e) => {
                let mut why = "executable parse: ".to_string();
                why.append(e.as_str());
                Err(why)
            },
            Ok(ImageKind::Elf) => {
                let headers = read_elf_sections(bytes);
                let symbols = read_elf_symbols(bytes);
                let dynamic = read_elf_dynamic_symbols(bytes);
                Ok(ElfStrings::from_elf(bytes, &headers, &symbols, &dynamic))
            },
            Ok(ImageKind::Mach) => {
                let sections = read_mach_sections(bytes);
                let symbols = read_mach_symbols(bytes);
                ElfStrings::from_mach(sections, &symbols)
            },
            Ok(ImageKind::FatMach) => Err(
                "fat Mach-O images are not supported; use a thin executable".to_string(),
            ),
            Ok(ImageKind::Other) => Err(
                "unsupported executable format; expected ELF or Mach-O".to_string(),
            ),
        }
    }
}

// ---- Laws ----

/// A lookup ignores by how much the image was moved: the address of a string,
/// moved by the slide, finds that string.
pub proof fn slide_moves_addresses(elf: ElfV, slide: u32, addr: u32)
    requires
        elf.slide == 0,
    ensures
        ({
            let moved = ((addr + slide) % 0x1_0000_0000) as u32;
            let loaded = ElfV { slide, ..elf };
            &&& loaded.cstr(moved, Which::Any) == elf.cstr(addr, Which::Any)
            &&& loaded.format(moved) == elf.format(addr)
            &&& loaded.tag(moved) == elf.tag(addr)
            &&& loaded.symbol(moved) == elf.symbol(addr)
        }),
{
    let moved = ((addr + slide) % 0x1_0000_0000) as u32;
    assert(unslid(moved, slide) == addr);
}

/// A string is found only where all searched sections that contain the address
/// agree on it.
pub proof fn lookup_is_unambiguous(sections: Seq<SectionV>, addr: u32, which: Which, k: int)
    requires
        0 <= k < sections.len(),
        sections[k].contains(addr),
        searches(which, sections[k].name),
        agreed(sections, addr, which) is Some,
    ensures
        agreed(sections, addr, which) == sections[k].cstr(addr),
{
}

/// Lookups do not depend on the order in which an image lists its sections.
pub proof fn section_order_does_not_matter(sections: Seq<SectionV>, addr: u32, which: Which)
    ensures
        agreed(sorted(sections, section_key()), addr, which) == agreed(sections, addr, which),
{
    let list = sorted(sections, section_key());
    sorted_is_a_sorted_permutation(sections, section_key());
    assert forall|t: Seq<char>|
        all_read(list, addr, which, t) == all_read(sections, addr, which, t) by {
        if all_read(list, addr, which, t) {
            lemma_same_sections_read(list, sections, addr, which, t);
        }
        if all_read(sections, addr, which, t) {
            lemma_same_sections_read(sections, list, addr, which, t);
        }
    }
    if exists|t: Seq<char>| all_read(sections, addr, which, t) {
        let t = choose|t: Seq<char>| all_read(sections, addr, which, t);
        let u = choose|u: Seq<char>| all_read(list, addr, which, u);
        assert(all_read(list, addr, which, t));
        assert(all_read(sections, addr, which, u));
        let k = choose|k: int|
            0 <= k < sections.len() && (#[trigger] sections[k]).contains(addr) && searches(
                which,
                sections[k].name,
            );
        assert(sections[k].cstr(addr) == Some(t));
        assert(sections[k].cstr(addr) == Some(u));
    }
}

proof fn lemma_same_sections_read(
    a: Seq<SectionV>,
    b: Seq<SectionV>,
    addr: u32,
    which: Which,
    t: Seq<char>,
)
    requires
        a.to_multiset() == b.to_multiset(),
        all_read(a, addr, which, t),
    ensures
        all_read(b, addr, which, t),
{
    broadcast use vstd::seq_lib::group_to_multiset_ensures;

    let k = choose|k: int|
        0 <= k < a.len() && (#[trigger] a[k]).contains(addr) && searches(which, a[k].name);
    assert(a.contains(a[k]));
    assert(b.to_multiset().count(a[k]) > 0);
    assert(b.contains(a[k]));
    let j = choose|j: int| 0 <= j < b.len() && b[j] == a[k];
    assert(b[j].contains(addr));
    assert forall|i: int|
        0 <= i < b.len() && (#[trigger] b[i]).contains(addr) && searches(
            which,
            b[i].name,
        ) implies b[i].cstr(addr) == Some(t) by {
        assert(b.contains(b[i]));
        assert(a.to_multiset().count(b[i]) > 0);
        assert(a.contains(b[i]));
        let m = choose|m: int| 0 <= m < a.len() && a[m] == b[i];
        assert(a[m].contains(addr));
    }
}

proof fn lemma_last_holding_holds(symbols: Seq<SymbolV>, n: int, addr: u32)
    requires
        0 <= n <= symbols.len(),
    ensures
        match last_holding(symbols, n, addr) {
            Some(i) => 0 <= i < n && symbol_holds(symbols, i, addr),
            None => forall|k: int| 0 <= k < n ==> !#[trigger] symbol_holds(symbols, k, addr),
        },
    decreases n,
{
    if n > 0 {
        lemma_last_holding_holds(symbols, n - 1, addr);
    }
}

/// A resolved function starts at or below the address and says how far above its start
/// the address lies; a function is found wherever one contains the address.
pub proof fn resolved_symbol_holds_the_address(elf: ElfV, addr: u32)
    ensures
        elf.symbol(addr) matches Some(s) ==> s.address + s.offset == unslid(addr, elf.slide),
        elf.symbol(addr) is Some <==> exists|k: int|
            0 <= k < elf.symbols.len() && #[trigger] symbol_holds(
                elf.symbols,
                k,
                unslid(addr, elf.slide),
            ),
{
    lemma_last_holding_holds(elf.symbols, elf.symbols.len() as int, unslid(addr, elf.slide));
}

} // verus!
