//! The key state machine: per-key pressed/released state, idempotent
//! press and release, bulk reset, and modifier transitions. Every
//! observable effect is appended to an action queue that the
//! surrounding application replays against the OS injection library —
//! the message-passing form of the injection boundary.

use vstd::prelude::*;
use crate::notemappings::KbdKey;

verus! {

/// One emitted instruction for the injection boundary.
#[derive(Clone, Copy, Debug, PartialEq, Eq, Structural)]
pub enum KeyAction {
    /// Send an OS key-down for the key.
    Down(KbdKey),
    /// Send an OS key-up for the key.
    Up(KbdKey),
    /// Pause for the given number of milliseconds.
    Wait(u64),
}

/// No key occurs twice.
pub open spec fn distinct_keys(p: Seq<KbdKey>) -> bool {
    forall|i: int, j: int| 0 <= i < j < p.len() ==> p[i] != p[j]
}

/// The sequence with the first occurrence of `k` removed, if any.
pub open spec fn remove_first(p: Seq<KbdKey>, k: KbdKey) -> Seq<KbdKey>
    decreases p.len(),
{
    if p.len() == 0 {
        p
    } else if p[0] == k {
        p.drop_first()
    } else {
        seq![p[0]] + remove_first(p.drop_first(), k)
    }
}

/// The pressed set after pressing `k`: unchanged when already held.
pub open spec fn down_state(p: Seq<KbdKey>, k: KbdKey) -> Seq<KbdKey> {
    if p.contains(k) {
        p
    } else {
        p.push(k)
    }
}

/// What pressing `k` emits: nothing when already held, else one down.
pub open spec fn down_emits(p: Seq<KbdKey>, k: KbdKey) -> Seq<KeyAction> {
    if p.contains(k) {
        Seq::<KeyAction>::empty()
    } else {
        seq![KeyAction::Down(k)]
    }
}

/// The pressed set after releasing `k`: unchanged when not held.
pub open spec fn up_state(p: Seq<KbdKey>, k: KbdKey) -> Seq<KbdKey> {
    remove_first(p, k)
}

/// What releasing `k` emits: one up when held, else nothing.
pub open spec fn up_emits(p: Seq<KbdKey>, k: KbdKey) -> Seq<KeyAction> {
    if p.contains(k) {
        seq![KeyAction::Up(k)]
    } else {
        Seq::<KeyAction>::empty()
    }
}

/// What resetting emits: one up per held key, in order.
pub open spec fn reset_emits(p: Seq<KbdKey>) -> Seq<KeyAction> {
    p.map_values(|k: KbdKey| KeyAction::Up(k))
}

/// One modifier's share of `apply_modifier`: pressed when it is the
/// requested key, released otherwise.
pub open spec fn mod_step_state(p: Seq<KbdKey>, m: KbdKey, requested: Option<KbdKey>) -> Seq<
    KbdKey,
> {
    if requested == Some(m) {
        down_state(p, m)
    } else {
        up_state(p, m)
    }
}

/// What one modifier's share of `apply_modifier` emits.
pub open spec fn mod_step_emits(p: Seq<KbdKey>, m: KbdKey, requested: Option<KbdKey>) -> Seq<
    KeyAction,
> {
    if requested == Some(m) {
        down_emits(p, m)
    } else {
        up_emits(p, m)
    }
}

/// The pressed set after `apply_modifier`: Shift handled first, then
/// Control, each pressed when requested and released otherwise.
pub open spec fn mod_state(p: Seq<KbdKey>, requested: Option<KbdKey>) -> Seq<KbdKey> {
    mod_step_state(mod_step_state(p, KbdKey::Shift, requested), KbdKey::Control, requested)
}

/// What `apply_modifier` emits: Shift's share, then Control's.
pub open spec fn mod_emits(p: Seq<KbdKey>, requested: Option<KbdKey>) -> Seq<KeyAction> {
    mod_step_emits(p, KbdKey::Shift, requested) + mod_step_emits(
        mod_step_state(p, KbdKey::Shift, requested),
        KbdKey::Control,
        requested,
    )
}

/// Removing the first occurrence at its known position `i` is the same
/// as cutting index `i` out of the sequence.
proof fn lemma_remove_first_at(p: Seq<KbdKey>, k: KbdKey, i: int)
    requires
        0 <= i < p.len(),
        p[i] == k,
        forall|j: int| 0 <= j < i ==> p[j] != k,
    ensures
        remove_first(p, k) =~= p.subrange(0, i) + p.subrange(i + 1, p.len() as int),
    decreases i,
{
    if i == 0 {
        assert(p.drop_first() =~= p.subrange(0, 0) + p.subrange(1, p.len() as int));
    } else {
        assert(p[0] != k);
        lemma_remove_first_at(p.drop_first(), k, i - 1);
        assert(p.drop_first().subrange(0, i - 1) =~= p.subrange(1, i));
        assert(p.drop_first().subrange(i, p.drop_first().len() as int) =~= p.subrange(
            i + 1,
            p.len() as int,
        ));
        assert(seq![p[0]] + (p.subrange(1, i) + p.subrange(i + 1, p.len() as int)) =~= p.subrange(
            0,
            i,
        ) + p.subrange(i + 1, p.len() as int));
    }
}

/// How removal behaves on a duplicate-free sequence: the key is gone,
/// every other key is untouched, distinctness survives, and removing
/// an absent key changes nothing.
pub proof fn lemma_remove_first_props(p: Seq<KbdKey>, k: KbdKey)
    requires
        distinct_keys(p),
    ensures
        distinct_keys(remove_first(p, k)),
        !remove_first(p, k).contains(k),
        forall|x: KbdKey| x != k ==> remove_first(p, k).contains(x) == p.contains(x),
        p.contains(k) ==> remove_first(p, k).len() == p.len() - 1,
        !p.contains(k) ==> remove_first(p, k) == p,
    decreases p.len(),
{
    if p.len() == 0 {
        assert(remove_first(p, k) =~= p);
    } else if p[0] == k {
        assert(distinct_keys(p.drop_first())) by {
            assert(forall|i: int, j: int|
                0 <= i < j < p.drop_first().len() ==> p.drop_first()[i] == p[i + 1]
                    && p.drop_first()[j] == p[j + 1]);
        }
        assert(!p.drop_first().contains(k)) by {
            if p.drop_first().contains(k) {
                let w = choose|w: int| 0 <= w < p.drop_first().len() && p.drop_first()[w] == k;
                assert(p[w + 1] == k && p[0] == k);
            }
        }
        assert(forall|x: KbdKey| x != k ==> #[trigger] p.drop_first().contains(x) == p.contains(
            x,
        )) by {
            assert forall|x: KbdKey| x != k implies #[trigger] p.drop_first().contains(x)
                == p.contains(x) by {
                if p.drop_first().contains(x) {
                    let w = choose|w: int|
                        0 <= w < p.drop_first().len() && p.drop_first()[w] == x;
                    assert(p[w + 1] == x);
                }
                if p.contains(x) {
                    let w = choose|w: int| 0 <= w < p.len() && p[w] == x;
                    assert(w != 0);
                    assert(p.drop_first()[w - 1] == x);
                }
            }
        }
    } else {
        let rest = p.drop_first();
        assert(distinct_keys(rest)) by {
            assert(forall|i: int, j: int|
                0 <= i < j < rest.len() ==> rest[i] == p[i + 1] && rest[j] == p[j + 1]);
        }
        lemma_remove_first_props(rest, k);
        let r = seq![p[0]] + remove_first(rest, k);
        assert(remove_first(p, k) == r);
        assert(forall|x: KbdKey| #[trigger] r.contains(x) == (x == p[0] || remove_first(
            rest,
            k,
        ).contains(x))) by {
            assert forall|x: KbdKey| #[trigger] r.contains(x) == (x == p[0] || remove_first(
                rest,
                k,
            ).contains(x)) by {
                if r.contains(x) {
                    let w = choose|w: int| 0 <= w < r.len() && r[w] == x;
                    if w == 0 {
                    } else {
                        assert(remove_first(rest, k)[w - 1] == x);
                    }
                }
                if x == p[0] {
                    assert(r[0] == x);
                }
                if remove_first(rest, k).contains(x) {
                    let w = choose|w: int|
                        0 <= w < remove_first(rest, k).len() && remove_first(rest, k)[w] == x;
                    assert(r[w + 1] == x);
                }
            }
        }
        assert forall|x: KbdKey| x != k implies #[trigger] remove_first(p, k).contains(x)
            == p.contains(x) by {
            if p.contains(x) {
                if x == p[0] {
                    assert(r[0] == x);
                } else {
                    let w = choose|w: int| 0 <= w < p.len() && p[w] == x;
                    assert(w != 0);
                    assert(rest[w - 1] == x);
                    assert(rest.contains(x));
                    assert(remove_first(rest, k).contains(x));
                }
            }
            if r.contains(x) {
                if x == p[0] {
                    assert(p[0] == x);
                } else {
                    assert(remove_first(rest, k).contains(x));
                    assert(rest.contains(x));
                    let w = choose|w: int| 0 <= w < rest.len() && rest[w] == x;
                    assert(p[w + 1] == x);
                }
            }
        }
        assert(!p.contains(k) ==> !rest.contains(k));
        if !p.contains(k) {
            assert(remove_first(rest, k) == rest);
            assert(r =~= p);
        }
        if p.contains(k) {
            assert(rest.contains(k)) by {
                let w = choose|w: int| 0 <= w < p.len() && p[w] == k;
                assert(w != 0);
                assert(rest[w - 1] == k);
            }
        }
        assert(distinct_keys(r)) by {
            assert(!remove_first(rest, k).contains(p[0])) by {
                if remove_first(rest, k).contains(p[0]) {
                    assert(p[0] != k);
                    assert(rest.contains(p[0]));
                    let w = choose|w: int| 0 <= w < rest.len() && rest[w] == p[0];
                    assert(p[w + 1] == p[0] && p[0] == p[0]);
                }
            }
            assert forall|i: int, j: int| 0 <= i < j < r.len() implies r[i] != r[j] by {
                if i == 0 {
                    assert(r[j] == remove_first(rest, k)[j - 1]);
                    assert(remove_first(rest, k).contains(remove_first(rest, k)[j - 1]));
                } else {
                    assert(r[i] == remove_first(rest, k)[i - 1]);
                    assert(r[j] == remove_first(rest, k)[j - 1]);
                }
            }
        }
    }
}

/// The key driver. `pressed` holds the keys currently down, each at
/// most once, in the order they went down; `queue` holds the actions
/// emitted so far and not yet performed by the application.
pub struct KeyGen {
    pub pressed: Vec<KbdKey>,
    pub queue: Vec<KeyAction>,
}

impl KeyGen {
    /// The driver's invariant: no key is recorded as pressed twice.
    pub open spec fn wf(self) -> bool {
        distinct_keys(self.pressed@)
    }

    /// A driver with every key released and nothing queued.
    pub fn new() -> (r: KeyGen)
        ensures
            r.pressed@ == Seq::<KbdKey>::empty(),
            r.queue@ == Seq::<KeyAction>::empty(),
            r.wf(),
    {
        let r = KeyGen { pressed: Vec::new(), queue: Vec::new() };
        proof {
            assert(r.pressed@ =~= Seq::<KbdKey>::empty());
            assert(r.queue@ =~= Seq::<KeyAction>::empty());
        }
        r
    }

    fn find_key(&self, key: &KbdKey) -> (r: Option<usize>)
        ensures
            (match r {
                Some(i) => i < self.pressed@.len() && self.pressed@[i as int] == *key
                    && (forall|j: int| 0 <= j < i ==> self.pressed@[j] != *key),
                None => !self.pressed@.contains(*key),
            }),
    {
        let mut i: usize = 0;
        while i < self.pressed.len()
            invariant
                i <= self.pressed@.len(),
                forall|j: int| 0 <= j < i ==> self.pressed@[j] != *key,
            decreases self.pressed@.len() - i,
        {
            if self.pressed[i] == *key {
                return Some(i);
            }
            i = i + 1;
        }
        proof {
            if self.pressed@.contains(*key) {
                let w = choose|w: int| 0 <= w < self.pressed@.len() && self.pressed@[w] == *key;
                assert(self.pressed@[w] != *key);
            }
        }
        None
    }

    /// Press a key. No-op (and `false`) when it is already down; else
    /// the key is recorded and one down action is emitted.
    pub fn key_down(&mut self, key: &KbdKey) -> (r: bool)
        requires
            old(self).wf(),
        ensures
            final(self).wf(),
            r == !old(self).pressed@.contains(*key),
            final(self).pressed@ == down_state(old(self).pressed@, *key),
            final(self).queue@ == old(self).queue@ + down_emits(old(self).pressed@, *key),
    {
        match self.find_key(key) {
            Some(_) => {
                proof {
                    assert(final(self).queue@ =~= old(self).queue@ + down_emits(
                        old(self).pressed@,
                        *key,
                    ));
                }
                false
            },
            None => {
                let ghost prev = self.pressed@;
                self.pressed.push(*key);
                self.queue.push(KeyAction::Down(*key));
                proof {
                    assert(self.queue@ =~= old(self).queue@ + down_emits(prev, *key));
                    assert(distinct_keys(self.pressed@)) by {
                        assert(forall|i: int|
                            0 <= i < prev.len() ==> self.pressed@[i] == prev[i]);
                        assert(self.pressed@[prev.len() as int] == *key);
                        if !distinct_keys(self.pressed@) {
                            let (i, j) = choose|i: int, j: int|
                                0 <= i < j < self.pressed@.len() && self.pressed@[i]
                                    == self.pressed@[j];
                            if j < prev.len() {
                            } else {
                                assert(prev.contains(prev[i]));
                            }
                        }
                    }
                }
                true
            },
        }
    }

    /// Release a key. No-op (and `false`) when it is not down; else
    /// the key is forgotten and one up action is emitted.
    pub fn key_up(&mut self, key: &KbdKey) -> (r: bool)
        requires
            old(self).wf(),
        ensures
            final(self).wf(),
            r == old(self).pressed@.contains(*key),
            final(self).pressed@ == up_state(old(self).pressed@, *key),
            final(self).queue@ == old(self).queue@ + up_emits(old(self).pressed@, *key),
    {
        match self.find_key(key) {
            Some(i) => {
                let ghost prev = self.pressed@;
                self.pressed.remove(i);
                self.queue.push(KeyAction::Up(*key));
                proof {
                    assert(prev.contains(prev[i as int]));
                    lemma_remove_first_at(prev, *key, i as int);
                    assert(self.pressed@ =~= remove_first(prev, *key));
                    lemma_remove_first_props(prev, *key);
                    assert(self.queue@ =~= old(self).queue@ + up_emits(prev, *key));
                }
                true
            },
            None => {
                proof {
                    lemma_remove_first_props(self.pressed@, *key);
                    assert(final(self).pressed@ == up_state(old(self).pressed@, *key));
                    assert(final(self).queue@ =~= old(self).queue@ + up_emits(
                        old(self).pressed@,
                        *key,
                    ));
                }
                false
            },
        }
    }

    /// Release every held key: one up action per key, in the order
    /// they went down, and the count of keys that changed state.
    /// Never drops a stuck key silently.
    pub fn key_reset(&mut self) -> (r: u32)
        requires
            old(self).wf(),
            old(self).pressed@.len() <= u32::MAX,
        ensures
            final(self).wf(),
            final(self).pressed@ == Seq::<KbdKey>::empty(),
            r == old(self).pressed@.len(),
            final(self).queue@ == old(self).queue@ + reset_emits(old(self).pressed@),
    {
        let ghost prev = self.pressed@;
        let count = self.pressed.len();
        let mut i: usize = 0;
        proof {
            assert(self.queue@ =~= old(self).queue@ + reset_emits(prev).take(0));
        }
        while i < count
            invariant
                i <= count,
                count == prev.len(),
                self.pressed@ == prev,
                self.queue@ == old(self).queue@ + reset_emits(prev).take(i as int),
            decreases count - i,
        {
            let k = self.pressed[i];
            self.queue.push(KeyAction::Up(k));
            proof {
                assert(self.queue@ =~= old(self).queue@ + reset_emits(prev).take(i + 1));
            }
            i = i + 1;
        }
        self.pressed.clear();
        proof {
            assert(reset_emits(prev).take(prev.len() as int) =~= reset_emits(prev));
            assert(self.pressed@ =~= Seq::<KbdKey>::empty());
        }
        count as u32
    }

    /// Bring the fixed modifier set {Shift, Control} in line with the
    /// request: press the requested member, release every other
    /// member; a request of `None` or of a key outside the set
    /// releases both. Returns how many presses and releases actually
    /// happened, so the caller can decide whether a settle delay is
    /// needed.
    pub fn apply_modifier(&mut self, requested: Option<KbdKey>) -> (r: u32)
        requires
            old(self).wf(),
        ensures
            final(self).wf(),
            final(self).pressed@ == mod_state(old(self).pressed@, requested),
            final(self).queue@ == old(self).queue@ + mod_emits(old(self).pressed@, requested),
            r == mod_emits(old(self).pressed@, requested).len(),
    {
        let mut changes: u32 = 0;
        let want_shift = match requested {
            Some(k) => k == KbdKey::Shift,
            None => false,
        };
        let ghost p0 = self.pressed@;
        if want_shift {
            if self.key_down(&KbdKey::Shift) {
                changes = changes + 1;
            }
        } else {
            if self.key_up(&KbdKey::Shift) {
                changes = changes + 1;
            }
        }
        proof {
            assert(self.pressed@ == mod_step_state(p0, KbdKey::Shift, requested));
            assert(self.queue@ == old(self).queue@ + mod_step_emits(p0, KbdKey::Shift, requested));
            assert(changes == mod_step_emits(p0, KbdKey::Shift, requested).len());
        }
        let ghost p1 = self.pressed@;
        let want_control = match requested {
            Some(k) => k == KbdKey::Control,
            None => false,
        };
        if want_control {
            if self.key_down(&KbdKey::Control) {
                changes = changes + 1;
            }
        } else {
            if self.key_up(&KbdKey::Control) {
                changes = changes + 1;
            }
        }
        proof {
            assert(self.pressed@ == mod_state(p0, requested));
            assert(self.queue@ =~= old(self).queue@ + mod_emits(p0, requested));
            assert(changes == mod_emits(p0, requested).len());
        }
        changes
    }

    /// Queue a pause of the given length for the injection boundary.
    pub fn emit_wait(&mut self, ms: u64)
        requires
            old(self).wf(),
        ensures
            final(self).wf(),
            final(self).pressed@ == old(self).pressed@,
            final(self).queue@ == old(self).queue@.push(KeyAction::Wait(ms)),
    {
        self.queue.push(KeyAction::Wait(ms));
    }
}

/// Pressing an unheld key reports an event and holds the key; pressing
/// it again right away reports none and leaves the state as it was —
/// the key stays pressed through both calls.
pub proof fn lemma_press_twice(p: Seq<KbdKey>, k: KbdKey)
    requires
        distinct_keys(p),
        !p.contains(k),
    ensures
        down_emits(p, k) == seq![KeyAction::Down(k)],
        down_state(p, k).contains(k),
        down_emits(down_state(p, k), k) == Seq::<KeyAction>::empty(),
        down_state(down_state(p, k), k) == down_state(p, k),
{
    assert(p.push(k)[p.len() as int] == k);
    assert(p.push(k).contains(k));
}

/// After pressing two distinct keys from a fully released state, reset
/// reports two changes, emits exactly their two releases in order, and
/// leaves everything — the two keys and any third — released.
pub proof fn lemma_reset_after_two_presses(a: KbdKey, b: KbdKey, c: KbdKey)
    requires
        a != b,
        c != a,
        c != b,
    ensures
        down_state(down_state(Seq::<KbdKey>::empty(), a), b) == seq![a, b],
        reset_emits(seq![a, b]) == seq![KeyAction::Up(a), KeyAction::Up(b)],
        seq![a, b].len() == 2,
        !seq![a, b].contains(c),
{
    let p0 = Seq::<KbdKey>::empty();
    assert(!p0.contains(a));
    assert(down_state(p0, a) =~= seq![a]);
    assert(!seq![a].contains(b)) by {
        if seq![a].contains(b) {
            let w = choose|w: int| 0 <= w < 1 && seq![a][w] == b;
            assert(seq![a][0] == a);
        }
    }
    assert(down_state(seq![a], b) =~= seq![a, b]);
    assert(reset_emits(seq![a, b]) =~= seq![KeyAction::Up(a), KeyAction::Up(b)]);
    assert(!seq![a, b].contains(c)) by {
        if seq![a, b].contains(c) {
            let w = choose|w: int| 0 <= w < 2 && seq![a, b][w] == c;
            assert(w == 0 || w == 1);
        }
    }
}

/// Switching the held modifier from Control to Shift presses Shift and
/// releases Control — exactly two observable transitions — and asking
/// for Shift again right after reports zero transitions and leaves the
/// state untouched.
pub proof fn lemma_modifier_switch(p: Seq<KbdKey>)
    requires
        distinct_keys(p),
    ensures
        ({
            let p1 = mod_state(p, Some(KbdKey::Control));
            let p2 = mod_state(p1, Some(KbdKey::Shift));
            p1.contains(KbdKey::Control) && !p1.contains(KbdKey::Shift) && mod_emits(
                p1,
                Some(KbdKey::Shift),
            ).len() == 2 && p2.contains(KbdKey::Shift) && !p2.contains(KbdKey::Control)
                && mod_emits(p2, Some(KbdKey::Shift)).len() == 0 && mod_state(
                p2,
                Some(KbdKey::Shift),
            ) == p2
        }),
{
    let s = KbdKey::Shift;
    let c = KbdKey::Control;
    lemma_remove_first_props(p, s);
    let pa = remove_first(p, s);
    assert(mod_step_state(p, s, Some(c)) == pa);
    lemma_remove_first_props(pa, c);
    let p1 = mod_state(p, Some(c));
    if pa.contains(c) {
        assert(p1 == pa);
    } else {
        assert(p1 == pa.push(c));
        assert(p1[pa.len() as int] == c);
        assert(p1.contains(c));
        assert(!p1.contains(s)) by {
            if p1.contains(s) {
                let w = choose|w: int| 0 <= w < p1.len() && p1[w] == s;
                if w < pa.len() {
                    assert(pa[w] == s);
                }
            }
        }
        assert(distinct_keys(p1)) by {
            if !distinct_keys(p1) {
                let (i, j) = choose|i: int, j: int|
                    0 <= i < j < p1.len() && p1[i] == p1[j];
                if j < pa.len() {
                } else {
                    assert(pa.contains(pa[i]));
                }
            }
        }
    }
    assert(p1.contains(c));
    assert(!p1.contains(s));
    assert(distinct_keys(p1));
    // Now apply Some(Shift) to p1.
    assert(mod_step_emits(p1, s, Some(s)) == down_emits(p1, s));
    assert(down_emits(p1, s).len() == 1);
    let pb = down_state(p1, s);
    assert(pb == p1.push(s));
    assert(pb[p1.len() as int] == s);
    assert(pb.contains(s));
    assert(pb.contains(c)) by {
        let w = choose|w: int| 0 <= w < p1.len() && p1[w] == c;
        assert(pb[w] == c);
    }
    assert(distinct_keys(pb)) by {
        if !distinct_keys(pb) {
            let (i, j) = choose|i: int, j: int| 0 <= i < j < pb.len() && pb[i] == pb[j];
            if j < p1.len() {
            } else {
                assert(p1.contains(p1[i]));
            }
        }
    }
    assert(mod_step_emits(pb, c, Some(s)) == up_emits(pb, c));
    assert(up_emits(pb, c).len() == 1);
    assert(mod_emits(p1, Some(s)).len() == 2);
    lemma_remove_first_props(pb, c);
    let p2 = mod_state(p1, Some(s));
    assert(p2 == remove_first(pb, c));
    assert(p2.contains(s)) by {
        assert(s != c);
        assert(remove_first(pb, c).contains(s) == pb.contains(s));
    }
    assert(!p2.contains(c));
    assert(distinct_keys(p2));
    // A second Some(Shift) finds Shift held and Control released.
    assert(mod_step_emits(p2, s, Some(s)) == down_emits(p2, s));
    assert(down_emits(p2, s).len() == 0);
    assert(mod_step_state(p2, s, Some(s)) == p2);
    lemma_remove_first_props(p2, c);
    assert(mod_step_emits(p2, c, Some(s)) == up_emits(p2, c));
    assert(up_emits(p2, c).len() == 0);
    assert(mod_emits(p2, Some(s)).len() == 0);
    assert(mod_state(p2, Some(s)) == p2);
}

} // verus!
