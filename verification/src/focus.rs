//! The space view's frame of reference: which body the camera is centred on.
//!
//! Bodies are indexed as in the orbital scene: 0 is the Sun, 1 the Earth, 2.. the moons (or the
//! inbound impactor). The focus starts on the Earth and cycles Earth → each moon → Earth.

use vstd::prelude::*;

verus! {

/// The focused body together with the number of bodies in the scene.
pub struct ViewFocus {
    focus: usize,
    body_count: usize,
}

/// The focus after one press of "cycle": the next body, wrapping from the last one back to Earth.
pub open spec fn next_focus(focus: int, body_count: int) -> int {
    if focus >= body_count - 1 {
        1
    } else {
        focus + 1
    }
}

/// The focus after `k` presses of "cycle".
pub open spec fn cycled(focus: int, body_count: int, k: nat) -> int
    decreases k,
{
    if k == 0 {
        focus
    } else {
        cycled(next_focus(focus, body_count), body_count, (k - 1) as nat)
    }
}

/// The HUD name of the focused body: "Earth", "Moon", or "Moon A", "Moon B", … when the scene has
/// more than one moon.
pub open spec fn label_spec(focus: int, body_count: int) -> Seq<char> {
    if focus == 1 {
        seq!['E', 'a', 'r', 't', 'h']
    } else if body_count > 3 {
        seq!['M', 'o', 'o', 'n', ' ', moon_letter(focus)]
    } else {
        seq!['M', 'o', 'o', 'n']
    }
}

/// The letter of moon `focus` (the first moon, index 2, is 'A'), counted on a byte.
pub open spec fn moon_letter(focus: int) -> char {
    (65 + (focus - 2) % 256) as char
}

/// Appends one character to a string.
/// Trusted: `String::push` (std) appends `c` at the end of `s` and changes nothing else.
#[verifier::external_body]
fn push_char(s: &mut String, c: char)
    ensures
        final(s)@ == old(s)@.push(c),
{
    s.push(c)
}

impl ViewFocus {
    pub closed spec fn focus_spec(&self) -> int {
        self.focus as int
    }

    pub closed spec fn body_count_spec(&self) -> int {
        self.body_count as int
    }

    /// Well-formed: the focus is never the Sun, and the scene has at least one body.
    pub open spec fn wf(&self) -> bool {
        &&& self.focus_spec() >= 1
        &&& self.body_count_spec() >= 1
    }

    /// A scene of `body_count` bodies, viewed from the Earth.
    pub fn new(body_count: usize) -> (v: ViewFocus)
        requires
            body_count >= 1,
        ensures
            v.wf(),
            v.focus_spec() == 1,
            v.body_count_spec() == body_count,
    {
        ViewFocus { focus: 1, body_count }
    }

    /// The focused body's index.
    pub fn focus(&self) -> (f: usize)
        ensures
            f == self.focus_spec(),
    {
        self.focus
    }

    /// The number of bodies in the scene.
    pub fn body_count(&self) -> (n: usize)
        ensures
            n == self.body_count_spec(),
    {
        self.body_count
    }

    /// The scene's body list changed (a moon was replaced by an impactor, …); the focus is kept.
    pub fn set_body_count(&mut self, body_count: usize)
        requires
            old(self).wf(),
            body_count >= 1,
        ensures
            final(self).wf(),
            final(self).focus_spec() == old(self).focus_spec(),
            final(self).body_count_spec() == body_count,
    {
        self.body_count = body_count;
    }

    /// Cycle the frame of reference through the Earth and each moon.
    pub fn cycle_focus(&mut self)
        requires
            old(self).wf(),
        ensures
            final(self).wf(),
            final(self).focus_spec() == next_focus(old(self).focus_spec(), old(self).body_count_spec()),
            final(self).body_count_spec() == old(self).body_count_spec(),
    {
        let last = self.body_count - 1;
        self.focus = if self.focus >= last {
            1
        } else {
            self.focus + 1
        };
    }

    /// Centre the view on the Earth.
    pub fn focus_earth(&mut self)
        requires
            old(self).wf(),
        ensures
            final(self).wf(),
            final(self).focus_spec() == 1,
            final(self).body_count_spec() == old(self).body_count_spec(),
    {
        self.focus = 1;
    }

    /// Centre the view on the (first) moon, when the scene has one; otherwise nothing changes.
    pub fn focus_moon(&mut self)
        requires
            old(self).wf(),
        ensures
            final(self).wf(),
            final(self).focus_spec() == if old(self).body_count_spec() > 2 {
                2
            } else {
                old(self).focus_spec()
            },
            final(self).body_count_spec() == old(self).body_count_spec(),
    {
        if self.body_count > 2 {
            self.focus = 2;
        }
    }

    /// Name of the focused body for the HUD.
    pub fn focus_label(&self) -> (s: String)
        requires
            self.wf(),
            self.focus_spec() == 1 || self.body_count_spec() <= 3 || (self.focus_spec() - 2) % 256
                < 191,
        ensures
            s@ == label_spec(self.focus_spec(), self.body_count_spec()),
    {
        if self.focus == 1 {
            let s = String::from_str("Earth");
            proof {
                reveal_strlit("Earth");
            }
            return s;
        }
        if self.body_count > 3 {
            let k = ((self.focus - 2) % 256) as u8;
            let code: u8 = 65u8 + k;
            let mut s = String::from_str("Moon ");
            proof {
                reveal_strlit("Moon ");
            }
            push_char(&mut s, code as char);
            s
        } else {
            let s = String::from_str("Moon");
            proof {
                reveal_strlit("Moon");
            }
            s
        }
    }
}

/// Pressing "cycle" enough times walks forward one body at a time: from `focus`, `k` presses that
/// do not pass the last body land on `focus + k`.
pub proof fn lemma_cycle_walks_forward(focus: int, body_count: int, k: nat)
    requires
        1 <= focus,
        focus + k <= body_count - 1,
    ensures
        cycled(focus, body_count, k) == focus + k,
    decreases k,
{
    if k > 0 {
        lemma_cycle_walks_forward(focus + 1, body_count, (k - 1) as nat);
    }
}

/// Body `b` is reached within fewer than `body_count − 1` presses from `focus`.
pub open spec fn visits_within_round(focus: int, body_count: int, b: int) -> bool {
    exists|k: nat| k < body_count - 1 && #[trigger] cycled(focus, body_count, k) == b
}

/// `a` presses followed by `b` presses are `a + b` presses.
pub proof fn lemma_cycled_adds(focus: int, body_count: int, a: nat, b: nat)
    ensures
        cycled(cycled(focus, body_count, a), body_count, b) == cycled(focus, body_count, a + b),
    decreases a,
{
    if a > 0 {
        lemma_cycled_adds(next_focus(focus, body_count), body_count, (a - 1) as nat, b);
        assert(cycled(focus, body_count, a + b) == cycled(
            next_focus(focus, body_count),
            body_count,
            (a + b - 1) as nat,
        ));
    }
}

/// Cycling is periodic: in a scene of `n ≥ 2` bodies, pressing "cycle" `n − 1` times from any
/// non-Sun body returns the view to that same body, having visited the Earth and every moon.
pub proof fn lemma_cycle_returns_after_a_full_round(focus: int, body_count: int)
    requires
        body_count >= 2,
        1 <= focus <= body_count - 1,
    ensures
        cycled(focus, body_count, (body_count - 1) as nat) == focus,
        forall|b: int| 1 <= b <= body_count - 1 ==> #[trigger] visits_within_round(focus, body_count, b),
{
    let n = body_count;
    let up: nat = (n - 1 - focus) as nat;
    lemma_cycle_walks_forward(focus, n, up);
    // one more press wraps to the Earth
    assert(cycled(1, n, 0) == 1);
    assert(cycled(n - 1, n, 1) == 1);
    lemma_cycled_adds(focus, n, up, 1);
    let back: nat = (focus - 1) as nat;
    lemma_cycle_walks_forward(1, n, back);
    lemma_cycled_adds(focus, n, up + 1, back);
    assert forall|b: int| 1 <= b <= n - 1 implies #[trigger] visits_within_round(focus, n, b) by {
        if b >= focus {
            let k: nat = (b - focus) as nat;
            lemma_cycle_walks_forward(focus, n, k);
            assert(cycled(focus, n, k) == b);
        } else {
            let k2: nat = (b - 1) as nat;
            lemma_cycle_walks_forward(1, n, k2);
            lemma_cycled_adds(focus, n, up + 1, k2);
            assert(cycled(focus, n, up + 1 + k2) == b);
        }
    }
}

} // verus!
