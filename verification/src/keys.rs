//! Keys of the live monitor.

use vstd::prelude::*;

verus! {

/// `Ctrl+]` byte (ASCII group separator, 0x1d). Used as the first key in the
/// quit sequence.
pub const CTRL_RBRACKET: u8 = 0x1d;
/// `Ctrl+T` byte (ASCII end of transmission, 0x14). Used as the second key in
/// the quit sequence.
pub const CTRL_T: u8 = 0x14;

/// Tracks whether the user has typed the quit sequence `Ctrl+] Ctrl+T`.
/// The sequence can span multiple `feed()` calls (partial chunks).
#[derive(Debug, Clone, Copy, PartialEq, Eq, Structural)]
pub struct MonitorKeyState {
    /// Whether `Ctrl+]` (0x1d) was seen as the most recent key.
    pub saw_ctrl_rbracket: bool,
}

/// True if the quit sequence ends at position `k` of `keys`; `armed` says that a
/// `Ctrl+]` came right before.
pub open spec fn quits_at(keys: Seq<u8>, k: int, armed: bool) -> bool {
    keys[k] == CTRL_T && (if k == 0 {
        armed
    } else {
        keys[k - 1] == CTRL_RBRACKET
    })
}

/// True if `keys` complete the quit sequence.
pub open spec fn quits(keys: Seq<u8>, armed: bool) -> bool {
    exists|k: int| 0 <= k < keys.len() && #[trigger] quits_at(keys, k, armed)
}

/// True if the last key was `Ctrl+]`.
pub open spec fn armed_after(keys: Seq<u8>, armed: bool) -> bool {
    if keys.len() == 0 {
        armed
    } else {
        keys.last() == CTRL_RBRACKET
    }
}

impl MonitorKeyState {
    /// Create a new idle key state.
    pub fn new() -> (r: Self)
        ensures
            !r.saw_ctrl_rbracket,
    {
        MonitorKeyState { saw_ctrl_rbracket: false }
    }

    /// Feed a chunk of stdin bytes and return `true` if the complete quit
    /// sequence (`Ctrl+] Ctrl+T`) has been detected. The sequence can span
    /// multiple calls; any byte that does not continue the sequence resets.
    pub fn feed(&mut self, bytes: &[u8]) -> (r: bool)
        ensures
            r == quits(bytes@, old(self).saw_ctrl_rbracket),
            !r ==> final(self).saw_ctrl_rbracket == armed_after(
                bytes@,
                old(self).saw_ctrl_rbracket,
            ),
            r ==> final(self).saw_ctrl_rbracket,
    {
        let ghost armed = self.saw_ctrl_rbracket;
        let mut i: usize = 0;
        while i < bytes.len()
            invariant
                i <= bytes.len(),
                armed == old(self).saw_ctrl_rbracket,
                self.saw_ctrl_rbracket == armed_after(bytes@.take(i as int), armed),
                forall|k: int| 0 <= k < i ==> !#[trigger] quits_at(bytes@, k, armed),
            decreases bytes.len() - i,
        {
            let b = bytes[i];
            if self.saw_ctrl_rbracket && b == CTRL_T {
                assert(quits_at(bytes@, i as int, armed));
                return true;
            }
            assert(!quits_at(bytes@, i as int, armed));
            self.saw_ctrl_rbracket = b == CTRL_RBRACKET;
            i += 1;
        }
        assert(bytes@.take(i as int) =~= bytes@);
        false
    }
}

/// The quit sequence is found wherever the input is cut into chunks.
pub proof fn quitting_ignores_chunks(a: Seq<u8>, b: Seq<u8>, armed: bool)
    ensures
        quits(a + b, armed) <==> quits(a, armed) || quits(b, armed_after(a, armed)),
        armed_after(a + b, armed) == armed_after(b, armed_after(a, armed)),
{
    let s = a + b;
    if quits(s, armed) {
        let k = choose|k: int| 0 <= k < s.len() && #[trigger] quits_at(s, k, armed);
        if k < a.len() {
            assert(quits_at(a, k, armed));
        } else {
            assert(quits_at(b, k - a.len(), armed_after(a, armed)));
        }
    }
    if quits(a, armed) {
        let k = choose|k: int| 0 <= k < a.len() && #[trigger] quits_at(a, k, armed);
        assert(quits_at(s, k, armed));
    }
    if quits(b, armed_after(a, armed)) {
        let k = choose|k: int|
            0 <= k < b.len() && #[trigger] quits_at(b, k, armed_after(a, armed));
        assert(quits_at(s, k + a.len(), armed));
    }
}

/// The two keys `Ctrl+]` and `Ctrl+T`, one right behind the other, quit, wherever they
/// stand among the keys; nothing else does. The first of them may have been the last key
/// typed before.
pub proof fn quit_sequence_is_two_keys(keys: Seq<u8>, armed: bool)
    ensures
        quits(keys, armed) <==> (armed && keys.len() > 0 && keys[0] == 0x14) || exists|i: int|
            0 <= i < keys.len() - 1 && #[trigger] keys[i] == 0x1d && keys[i + 1] == 0x14,
        keys.len() > 0 ==> (armed_after(keys, armed) <==> keys[keys.len() - 1] == 0x1d),
{
    if quits(keys, armed) {
        let k = choose|k: int| 0 <= k < keys.len() && #[trigger] quits_at(keys, k, armed);
        if k > 0 {
            assert(keys[k - 1] == 0x1d);
        }
    }
    if armed && keys.len() > 0 && keys[0] == 0x14 {
        assert(quits_at(keys, 0, armed));
    }
    if exists|i: int|
        0 <= i < keys.len() - 1 && #[trigger] keys[i] == 0x1d && keys[i + 1] == 0x14 {
        let i = choose|i: int|
            0 <= i < keys.len() - 1 && #[trigger] keys[i] == 0x1d && keys[i + 1] == 0x14;
        assert(quits_at(keys, i + 1, armed));
    }
}

} // verus!
