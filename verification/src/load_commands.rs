//! The head of a thin Mach-O file: how its numbers are written, and where its load
//! commands place the entry point.
//!
//! A Mach-O image gives its entry point as an offset into the file (`LC_MAIN`). Its
//! address is that offset moved by as much as the `__TEXT` segment lies above its
//! place in the file. The test here tells whether that address is a number at all.

use vstd::prelude::*;

verus! {

/// Load command that maps a part of a 32-bit file.
pub const LC_SEGMENT: u64 = 1;

/// Load command that maps a part of a 64-bit file.
pub const LC_SEGMENT_64: u64 = 0x19;

/// Load command that gives the entry point.
pub const LC_MAIN: u64 = 0x8000_0028;

/// Length of the longer one of the two Mach-O headers.
pub const MACH_HEADER_LEN: usize = 32;

// ---- Numbers ----

/// The number that bytes denote, the most significant one first.
pub open spec fn number(s: Seq<u8>) -> nat
    decreases s.len(),
{
    if s.len() == 0 {
        0
    } else {
        number(s.drop_last()) * 256 + s.last() as nat
    }
}

/// The number in the `n` bytes at `at`, in the given byte order.
pub open spec fn number_at(s: Seq<u8>, at: int, n: nat, little: bool) -> nat {
    let bytes = s.subrange(at, at + n);
    if little {
        number(bytes.reverse())
    } else {
        number(bytes)
    }
}

/// How many numbers `n` bytes can denote.
spec fn byte_limit(n: nat) -> nat
    decreases n,
{
    if n == 0 {
        1
    } else {
        byte_limit((n - 1) as nat) * 256
    }
}

proof fn lemma_number_limit(s: Seq<u8>)
    ensures
        number(s) < byte_limit(s.len()),
    decreases s.len(),
{
    if s.len() > 0 {
        lemma_number_limit(s.drop_last());
    }
}

proof fn lemma_byte_limit(n: nat)
    requires
        n <= 8,
    ensures
        byte_limit(n) <= 0x1_0000_0000_0000_0000,
{
    reveal_with_fuel(byte_limit, 9);
}

/// Reads the number in the `n` bytes at `at`.
fn read_number(s: &[u8], at: usize, n: usize, little: bool) -> (r: u64)
    requires
        n <= 8,
        at + n <= s.len(),
    ensures
        r == number_at(s@, at as int, n as nat, little),
{
    let ghost bytes = s@.subrange(at as int, at + n);
    let ghost ordered = if little {
        bytes.reverse()
    } else {
        bytes
    };
    let mut v: u64 = 0;
    let mut k: usize = 0;
    while k < n
        invariant
            k <= n <= 8,
            at + n <= s.len(),
            bytes == s@.subrange(at as int, at + n),
            ordered == if little {
                bytes.reverse()
            } else {
                bytes
            },
            v == number(ordered.take(k as int)),
        decreases n - k,
    {
        let b = if little {
            s[at + (n - 1 - k)]
        } else {
            s[at + k]
        };
        proof {
            let longer = ordered.take(k + 1);
            assert(longer.drop_last() =~= ordered.take(k as int));
            assert(longer.last() == b);
            lemma_number_limit(longer);
            lemma_byte_limit((k + 1) as nat);
        }
        v = v * 256 + b as u64;
        k += 1;
    }
    assert(ordered.take(n as int) =~= ordered);
    v
}

// ---- Headers ----

/// True if `s` starts with these four bytes.
pub open spec fn starts(s: Seq<u8>, a: u8, b: u8, c: u8, d: u8) -> bool {
    s.len() >= 4 && s[0] == a && s[1] == b && s[2] == c && s[3] == d
}

/// How the numbers of a thin Mach-O file are written.
#[derive(Debug, Clone, Copy, PartialEq, Eq)]
pub struct Thin {
    /// 64-bit header.
    pub wide: bool,
    /// Least significant byte first.
    pub little: bool,
}

/// How the numbers of `s` are written, if it starts as a thin Mach-O file.
pub open spec fn thin_header(s: Seq<u8>) -> Option<Thin> {
    if starts(s, 0xfe, 0xed, 0xfa, 0xce) {
        Some(Thin { wide: false, little: false })
    } else if starts(s, 0xce, 0xfa, 0xed, 0xfe) {
        Some(Thin { wide: false, little: true })
    } else if starts(s, 0xfe, 0xed, 0xfa, 0xcf) {
        Some(Thin { wide: true, little: false })
    } else if starts(s, 0xcf, 0xfa, 0xed, 0xfe) {
        Some(Thin { wide: true, little: true })
    } else {
        None
    }
}

fn begins(s: &[u8], a: u8, b: u8, c: u8, d: u8) -> (r: bool)
    ensures
        r == starts(s@, a, b, c, d),
{
    s.len() >= 4 && s[0] == a && s[1] == b && s[2] == c && s[3] == d
}

fn read_thin_header(s: &[u8]) -> (r: Option<Thin>)
    ensures
        r == thin_header(s@),
{
    if begins(s, 0xfe, 0xed, 0xfa, 0xce) {
        Some(Thin { wide: false, little: false })
    } else if begins(s, 0xce, 0xfa, 0xed, 0xfe) {
        Some(Thin { wide: false, little: true })
    } else if begins(s, 0xfe, 0xed, 0xfa, 0xcf) {
        Some(Thin { wide: true, little: false })
    } else if begins(s, 0xcf, 0xfa, 0xed, 0xfe) {
        Some(Thin { wide: true, little: true })
    } else {
        None
    }
}

// ---- Load commands ----

/// What the load commands say of the entry point.
#[derive(Debug, Clone, Copy, PartialEq, Eq)]
pub struct Entry {
    /// Offset of the entry point: the first `LC_MAIN`.
    pub main: Option<u64>,
    /// Address and file offset of the first `__TEXT` segment.
    pub text: Option<(u64, u64)>,
}

/// How many bytes of a load command are read.
pub open spec fn command_len(cmd: nat) -> nat {
    if cmd == LC_SEGMENT {
        56
    } else if cmd == LC_SEGMENT_64 {
        72
    } else if cmd == LC_MAIN {
        24
    } else {
        8
    }
}

/// True if the segment command at `at` is for `__TEXT`.
pub open spec fn names_text(s: Seq<u8>, at: int) -> bool {
    &&& starts(s.skip(at + 8), 0x5f, 0x5f, 0x54, 0x45)
    &&& s[at + 12] == 0x58 && s[at + 13] == 0x54 && s[at + 14] == 0
}

/// What is known of the entry point behind the load command at `at`.
pub open spec fn entry_with(s: Seq<u8>, little: bool, at: int, e: Entry) -> Entry {
    let cmd = number_at(s, at, 4, little);
    if cmd == LC_MAIN && e.main is None {
        Entry { main: Some(number_at(s, at + 8, 8, little) as u64), ..e }
    } else if cmd == LC_SEGMENT && e.text is None && names_text(s, at) {
        let place = (
            number_at(s, at + 24, 4, little) as u64,
            number_at(s, at + 32, 4, little) as u64,
        );
        Entry { text: Some(place), ..e }
    } else if cmd == LC_SEGMENT_64 && e.text is None && names_text(s, at) {
        let place = (
            number_at(s, at + 24, 8, little) as u64,
            number_at(s, at + 40, 8, little) as u64,
        );
        Entry { text: Some(place), ..e }
    } else {
        e
    }
}

/// What is known of the entry point behind `left` more load commands, the first of
/// which stands at `at`; nothing if one of them is cut off.
pub open spec fn entry_from(s: Seq<u8>, little: bool, at: int, left: nat, e: Entry) -> Option<Entry>
    decreases left,
{
    if left == 0 {
        Some(e)
    } else if at + 8 > s.len() {
        None
    } else {
        let cmd = number_at(s, at, 4, little);
        let size = number_at(s, at + 4, 4, little);
        if at + size > s.len() || at + command_len(cmd) > s.len() {
            None
        } else {
            entry_from(
                s,
                little,
                at + size,
                (left - 1) as nat,
                entry_with(s, little, at, e),
            )
        }
    }
}

/// What the load commands of a thin Mach-O file say of the entry point; nothing if
/// they are cut off.
pub open spec fn entry_of(s: Seq<u8>, thin: Thin) -> Option<Entry> {
    if s.len() < MACH_HEADER_LEN {
        None
    } else {
        let count = number_at(s, 16, 4, thin.little);
        let size = number_at(s, 20, 4, thin.little);
        let at = if thin.wide {
            32
        } else {
            28
        };
        if count > size / 8 || size > s.len() {
            None
        } else {
            entry_from(s, thin.little, at, count, Entry { main: None, text: None })
        }
    }
}

/// True if the address of an entry point is a 64-bit number.
pub open spec fn addressable(e: Entry) -> bool {
    match (e.main, e.text) {
        (Some(offset), Some((address, place))) => place <= address && address - place + offset
            <= u64::MAX,
        _ => true,
    }
}

/// True unless `s` is a thin Mach-O file whose entry point has no 64-bit address.
pub open spec fn entry_fits(s: Seq<u8>) -> bool {
    match thin_header(s) {
        Some(thin) => match entry_of(s, thin) {
            Some(e) => addressable(e),
            None => true,
        },
        None => true,
    }
}

fn reads_text(s: &[u8], at: usize) -> (r: bool)
    requires
        at + 24 <= s.len(),
    ensures
        r == names_text(s@, at as int),
{
    assert(s@.skip(at + 8).len() >= 4);
    s[at + 8] == 0x5f && s[at + 9] == 0x5f && s[at + 10] == 0x54 && s[at + 11] == 0x45 && s[at + 12]
        == 0x58 && s[at + 13] == 0x54 && s[at + 14] == 0
}

fn read_entry(s: &[u8], thin: Thin) -> (r: Option<Entry>)
    ensures
        r == entry_of(s@, thin),
{
    let little = thin.little;
    if s.len() < MACH_HEADER_LEN {
        return None;
    }
    let count = read_number(s, 16, 4, little);
    let size = read_number(s, 20, 4, little);
    if count > size / 8 || size > s.len() as u64 {
        return None;
    }
    let mut at: usize = if thin.wide {
        32
    } else {
        28
    };
    let mut left: u64 = count;
    let mut e = Entry { main: None, text: None };
    while left > 0
        invariant
            at <= s.len(),
            entry_from(s@, little, at as int, left as nat, e) == entry_of(s@, thin),
        decreases left,
    {
        let rest: u64 = (s.len() - at) as u64;
        if rest < 8 {
            return None;
        }
        let cmd = read_number(s, at, 4, little);
        let cmd_size = read_number(s, at + 4, 4, little);
        let needed: u64 = if cmd == LC_SEGMENT {
            56
        } else if cmd == LC_SEGMENT_64 {
            72
        } else if cmd == LC_MAIN {
            24
        } else {
            8
        };
        if cmd_size > rest || needed > rest {
            return None;
        }
        if cmd == LC_MAIN && e.main.is_none() {
            e = Entry { main: Some(read_number(s, at + 8, 8, little)), text: e.text };
        } else if cmd == LC_SEGMENT && e.text.is_none() && reads_text(s, at) {
            let address = read_number(s, at + 24, 4, little);
            let place = read_number(s, at + 32, 4, little);
            e = Entry { main: e.main, text: Some((address, place)) };
        } else if cmd == LC_SEGMENT_64 && e.text.is_none() && reads_text(s, at) {
            let address = read_number(s, at + 24, 8, little);
            let place = read_number(s, at + 40, 8, little);
            e = Entry { main: e.main, text: Some((address, place)) };
        }
        at += cmd_size as usize;
        left -= 1;
    }
    Some(e)
}

/// True unless `s` is a thin Mach-O file whose entry point has no 64-bit address.
pub fn entry_point_fits(s: &[u8]) -> (r: bool)
    ensures
        r == entry_fits(s@),
{
    if let Some(thin) = read_thin_header(s) {
        if let Some(e) = read_entry(s, thin) {
            if let (Some(offset), Some((address, place))) = (e.main, e.text) {
                return place <= address && address - place <= u64::MAX - offset;
            }
        }
    }
    true
}

// ---- Laws ----

proof fn lemma_number_of_four(b: Seq<u8>)
    requires
        b.len() == 4,
    ensures
        number(b) == b[3] + 256 * (b[2] + 256 * (b[1] + 256 * b[0])),
{
    let c = b.drop_last();
    let d = c.drop_last();
    let e = d.drop_last();
    assert(number(e.drop_last()) == 0);
    assert(number(e) == b[0]);
    assert(number(d) == number(e) * 256 + b[1]);
    assert(number(c) == number(d) * 256 + b[2]);
}

proof fn lemma_number_of_two_halves(a: Seq<u8>, b: Seq<u8>)
    requires
        b.len() == 4,
    ensures
        number(a + b) == number(a) * 0x1_0000_0000 + number(b),
{
    lemma_number_of_four(b);
    let s = a + b;
    let c = s.drop_last();
    let d = c.drop_last();
    let e = d.drop_last();
    assert(e.drop_last() =~= a);
    assert(number(e) == number(a) * 256 + b[0]);
    assert(number(d) == number(e) * 256 + b[1]);
    assert(number(c) == number(d) * 256 + b[2]);
    assert(number(s) == number(c) * 256 + b[3]);
}

/// A number of four bytes has its least significant byte first or last; one of eight
/// bytes is two of four, in the same order.
pub proof fn numbers_are_read_in_their_byte_order(s: Seq<u8>, at: int)
    requires
        0 <= at,
        at + 4 <= s.len(),
    ensures
        number_at(s, at, 4, true) == s[at] + 256 * (s[at + 1] + 256 * (s[at + 2] + 256 * s[at
            + 3])),
        number_at(s, at, 4, false) == s[at + 3] + 256 * (s[at + 2] + 256 * (s[at + 1] + 256
            * s[at])),
        at + 8 <= s.len() ==> number_at(s, at, 8, true) == number_at(s, at, 4, true)
            + 0x1_0000_0000 * number_at(s, at + 4, 4, true),
        at + 8 <= s.len() ==> number_at(s, at, 8, false) == number_at(s, at + 4, 4, false)
            + 0x1_0000_0000 * number_at(s, at, 4, false),
{
    let low = s.subrange(at, at + 4);
    lemma_number_of_four(low);
    lemma_number_of_four(low.reverse());
    if at + 8 <= s.len() {
        let high = s.subrange(at + 4, at + 8);
        let both = s.subrange(at, at + 8);
        assert(both =~= low + high);
        assert(both.reverse() =~= high.reverse() + low.reverse());
        lemma_number_of_two_halves(low, high);
        lemma_number_of_two_halves(high.reverse(), low.reverse());
    }
}

/// The first number of a thin file tells whether it is wide, and by the order of its bytes
/// how all the numbers are written.
pub proof fn magic_number_tells_the_byte_order(s: Seq<u8>, thin: Thin)
    requires
        s.len() >= 4,
        number_at(s, 0, 4, thin.little) == (if thin.wide {
            0xfeed_facfint
        } else {
            0xfeed_face
        }),
    ensures
        thin_header(s) == Some(thin),
{
    numbers_are_read_in_their_byte_order(s, 0);
}

/// A file that starts with none of the four magic numbers is no thin file.
pub proof fn other_files_have_no_entry_to_test(s: Seq<u8>)
    requires
        s.len() >= 4 ==> {
            &&& number_at(s, 0, 4, true) != 0xfeed_facf && number_at(s, 0, 4, true) != 0xfeed_face
            &&& number_at(s, 0, 4, false) != 0xfeed_facf && number_at(s, 0, 4, false) != 0xfeed_face
        },
    ensures
        thin_header(s) is None,
        entry_fits(s),
{
    if s.len() >= 4 {
        numbers_are_read_in_their_byte_order(s, 0);
    }
}

/// True if the command at `at` is for the entry point.
pub open spec fn is_main(s: Seq<u8>, little: bool, at: int) -> bool {
    number_at(s, at, 4, little) == 0x8000_0028
}

/// True if the command at `at` maps the segment `__TEXT`.
pub open spec fn is_text(s: Seq<u8>, little: bool, at: int) -> bool {
    &&& number_at(s, at, 4, little) == 1 || number_at(s, at, 4, little) == 0x19
    &&& s.subrange(at + 8, at + 15) == seq![0x5fu8, 0x5f, 0x54, 0x45, 0x58, 0x54, 0]
}

/// True if a command of at least 8 bytes stands whole at the `k`-th of these positions,
/// with what its kind needs, and the next one right behind it.
pub open spec fn stands_at(s: Seq<u8>, little: bool, pos: Seq<int>, k: int) -> bool {
    let size = number_at(s, pos[k] + 4, 4, little);
    let cmd = number_at(s, pos[k], 4, little);
    &&& 0 <= pos[k]
    &&& 8 <= size
    &&& pos[k] + size <= s.len()
    &&& cmd == 1 ==> size >= 56
    &&& cmd == 0x19 ==> size >= 72
    &&& cmd == 0x8000_0028 ==> size >= 24
    &&& k + 1 < pos.len() ==> pos[k + 1] == pos[k] + size
}

/// What the first commands for the entry point and for `__TEXT` say: `i` and `j` are their
/// indices, or the number of commands.
spec fn told(s: Seq<u8>, little: bool, pos: Seq<int>, i: int, j: int, k: int) -> Entry {
    Entry {
        main: if i < k {
            Some(number_at(s, pos[i] + 8, 8, little) as u64)
        } else {
            None
        },
        text: if j < k {
            if number_at(s, pos[j], 4, little) == 1 {
                Some(
                    (
                        number_at(s, pos[j] + 24, 4, little) as u64,
                        number_at(s, pos[j] + 32, 4, little) as u64,
                    ),
                )
            } else {
                Some(
                    (
                        number_at(s, pos[j] + 24, 8, little) as u64,
                        number_at(s, pos[j] + 40, 8, little) as u64,
                    ),
                )
            }
        } else {
            None
        },
    }
}

proof fn lemma_text_name(s: Seq<u8>, at: int)
    requires
        0 <= at,
        at + 24 <= s.len(),
    ensures
        names_text(s, at) == (s.subrange(at + 8, at + 15) == seq![
            0x5fu8, 0x5f, 0x54, 0x45, 0x58, 0x54, 0,
        ]),
{
    let name = s.subrange(at + 8, at + 15);
    let rest = s.skip(at + 8);
    assert(rest[0] == name[0] && rest[1] == name[1] && rest[2] == name[2] && rest[3] == name[3]);
    assert(s[at + 12] == name[4] && s[at + 13] == name[5] && s[at + 14] == name[6]);
    if names_text(s, at) {
        assert(name =~= seq![0x5fu8, 0x5f, 0x54, 0x45, 0x58, 0x54, 0]);
    }
}

proof fn lemma_commands(s: Seq<u8>, little: bool, pos: Seq<int>, i: int, j: int, k: int, at: int)
    requires
        0 <= k <= pos.len(),
        k < pos.len() ==> at == pos[k],
        0 <= i <= pos.len(),
        0 <= j <= pos.len(),
        forall|m: int| 0 <= m < pos.len() ==> #[trigger] stands_at(s, little, pos, m),
        i < pos.len() ==> is_main(s, little, pos[i]),
        forall|m: int| 0 <= m < i ==> !#[trigger] is_main(s, little, pos[m]),
        j < pos.len() ==> is_text(s, little, pos[j]),
        forall|m: int| 0 <= m < j ==> !#[trigger] is_text(s, little, pos[m]),
    ensures
        entry_from(s, little, at, (pos.len() - k) as nat, told(s, little, pos, i, j, k)) == Some(
            told(s, little, pos, i, j, pos.len() as int),
        ),
    decreases pos.len() - k,
{
    if k < pos.len() {
        assert(stands_at(s, little, pos, k));
        let size = number_at(s, at + 4, 4, little);
        let cmd = number_at(s, at, 4, little);
        if cmd == 1 || cmd == 0x19 {
            lemma_text_name(s, at);
        }
        if k < i {
            assert(!is_main(s, little, pos[k]));
        }
        if k < j {
            assert(!is_text(s, little, pos[k]));
        }
        assert(entry_with(s, little, at, told(s, little, pos, i, j, k)) == told(
            s,
            little,
            pos,
            i,
            j,
            k + 1,
        ));
        lemma_commands(s, little, pos, i, j, k + 1, at + size);
    }
}

proof fn lemma_number_fits(s: Seq<u8>, at: int, n: nat, little: bool)
    requires
        n <= 8,
        0 <= at,
        at + n <= s.len(),
    ensures
        number_at(s, at, n, little) <= u64::MAX,
{
    let bytes = s.subrange(at, at + n);
    lemma_number_limit(bytes);
    lemma_number_limit(bytes.reverse());
    lemma_byte_limit(n);
}

/// The entry point of a thin file has an address if its offset, moved by as much as
/// `__TEXT` lies above its place in the file, is a 64-bit number. The first command of
/// either kind counts. A file without one of them has no entry point to test.
pub proof fn entry_point_is_moved_with_the_text(
    s: Seq<u8>,
    thin: Thin,
    pos: Seq<int>,
    i: int,
    j: int,
)
    requires
        s.len() >= 32,
        thin_header(s) == Some(thin),
        number_at(s, 16, 4, thin.little) == pos.len(),
        8 * pos.len() <= number_at(s, 20, 4, thin.little) <= s.len(),
        pos.len() > 0 ==> pos[0] == (if thin.wide {
            32int
        } else {
            28
        }),
        forall|m: int| 0 <= m < pos.len() ==> #[trigger] stands_at(s, thin.little, pos, m),
        0 <= i <= pos.len(),
        0 <= j <= pos.len(),
        i < pos.len() ==> is_main(s, thin.little, pos[i]),
        forall|m: int| 0 <= m < i ==> !#[trigger] is_main(s, thin.little, pos[m]),
        j < pos.len() ==> is_text(s, thin.little, pos[j]),
        forall|m: int| 0 <= m < j ==> !#[trigger] is_text(s, thin.little, pos[m]),
    ensures
        i == pos.len() || j == pos.len() ==> entry_fits(s),
        i < pos.len() && j < pos.len() ==> {
            let offset = number_at(s, pos[i] + 8, 8, thin.little);
            let narrow = number_at(s, pos[j], 4, thin.little) == 1;
            let address = number_at(s, pos[j] + 24, if narrow {
                4
            } else {
                8
            }, thin.little);
            let place = if narrow {
                number_at(s, pos[j] + 32, 4, thin.little)
            } else {
                number_at(s, pos[j] + 40, 8, thin.little)
            };
            entry_fits(s) <==> place <= address && offset + (address - place)
                < 0x1_0000_0000_0000_0000
        },
{
    let little = thin.little;
    let n = pos.len() as int;
    let at = if thin.wide {
        32int
    } else {
        28
    };
    lemma_commands(s, little, pos, i, j, 0, at);
    assert(told(s, little, pos, i, j, 0) == Entry { main: None, text: None });
    assert(entry_of(s, thin) == Some(told(s, little, pos, i, j, n)));
    if i < n {
        assert(stands_at(s, little, pos, i));
        lemma_number_fits(s, pos[i] + 8, 8, little);
    }
    if j < n {
        assert(stands_at(s, little, pos, j));
        if number_at(s, pos[j], 4, little) == 1 {
            lemma_number_fits(s, pos[j] + 24, 4, little);
            lemma_number_fits(s, pos[j] + 32, 4, little);
        } else {
            lemma_number_fits(s, pos[j] + 24, 8, little);
            lemma_number_fits(s, pos[j] + 40, 8, little);
        }
    }
}

} // verus!
