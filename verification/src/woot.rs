//! A WOOT replica engine for collaborative text editing.
//!
//! Each replica (a [`Site`]) owns an ordered [`Sequence`] of identifier-tagged
//! characters bounded by two invisible sentinels. Local edits generate
//! [`Operation`]s; integrating the same set of operations at every replica, in
//! any causally valid order, yields the same sequence.

use vstd::prelude::*;
use vstd::string::StringExecFns;

verus! {

/// A globally unique character identifier: originating site and that site's
/// logical clock at generation time. Totally ordered lexicographically.
#[derive(Clone, Copy, PartialEq, Eq, Structural, Debug)]
pub struct ID {
    pub ns: i64,
    pub ng: i64,
}

/// Strict lexicographic order on `(ns, ng)`.
pub open spec fn id_lt(a: ID, b: ID) -> bool {
    a.ns < b.ns || (a.ns == b.ns && a.ng < b.ng)
}

/// Weak lexicographic order on `(ns, ng)`.
pub open spec fn id_le(a: ID, b: ID) -> bool {
    a.ns < b.ns || (a.ns == b.ns && a.ng <= b.ng)
}

impl ID {
    pub fn less_than_or_equal(&self, other: &Self) -> (r: bool)
        ensures
            r == id_le(*self, *other),
    {
        (self.ns < other.ns) || (self.ns == other.ns && self.ng <= other.ng)
    }

    pub fn less_than(&self, other: &Self) -> (r: bool)
        ensures
            r == id_lt(*self, *other),
    {
        (self.ns < other.ns) || (self.ns == other.ns && self.ng < other.ng)
    }
}

/// The identifier of the begin sentinel; below every generated identifier.
pub open spec fn cb_id() -> ID {
    ID { ns: i64::MIN, ng: 0 }
}

/// The identifier of the end sentinel; above every generated identifier.
pub open spec fn ce_id() -> ID {
    ID { ns: i64::MAX, ng: 0 }
}

/// An atom of the shared text: its identifier, its glyph, a tombstone flag,
/// and the identifiers of the neighbors it was originally inserted between
/// (absent only on the two sentinels).
#[derive(Debug)]
pub struct Character {
    pub id: ID,
    pub c: String,
    pub visible: bool,
    pub prev_id: Option<ID>,
    pub next_id: Option<ID>,
}

/// The mathematical value of a [`Character`].
#[verifier::ext_equal]
pub struct CharV {
    pub id: ID,
    pub glyph: Seq<char>,
    pub visible: bool,
    pub prev_id: Option<ID>,
    pub next_id: Option<ID>,
}

impl View for Character {
    type V = CharV;

    open spec fn view(&self) -> CharV {
        CharV {
            id: self.id,
            glyph: self.c@,
            visible: self.visible,
            prev_id: self.prev_id,
            next_id: self.next_id,
        }
    }
}

impl Character {
    /// A field-for-field copy (`Character` carries a `String`, so it is not `Copy`).
    pub fn duplicate(&self) -> (r: Character)
        ensures
            r == *self,
    {
        Character {
            id: self.id,
            c: self.c.clone(),
            visible: self.visible,
            prev_id: self.prev_id,
            next_id: self.next_id,
        }
    }
}

/// The value of the begin sentinel.
pub open spec fn cb_v() -> CharV {
    CharV { id: cb_id(), glyph: Seq::empty(), visible: false, prev_id: None, next_id: None }
}

/// The value of the end sentinel.
pub open spec fn ce_v() -> CharV {
    CharV { id: ce_id(), glyph: Seq::empty(), visible: false, prev_id: None, next_id: None }
}

/// The begin sentinel, always the first element of a sequence.
pub fn cb() -> (r: Character)
    ensures
        r@ == cb_v(),
{
    let r = Character { id: ID { ns: i64::MIN, ng: 0 }, c: String::new(), visible: false, prev_id: None, next_id: None };
    proof {
        assert(r@ =~= cb_v());
    }
    r
}

/// The end sentinel, always the last element of a sequence.
pub fn ce() -> (r: Character)
    ensures
        r@ == ce_v(),
{
    let r = Character { id: ID { ns: i64::MAX, ng: 0 }, c: String::new(), visible: false, prev_id: None, next_id: None };
    proof {
        assert(r@ =~= ce_v());
    }
    r
}

/// Everything that can go wrong in the engine.
#[derive(Clone, Copy, PartialEq, Eq, Structural, Debug)]
pub enum WootError {
    /// A lookup by visible index or by identifier found no character.
    TargetNotFound,
    /// The origin neighbors of an insertion are not (properly) present locally.
    ContextMissing,
    /// An operation record that no well-formed generator emits.
    MalformedOperation,
    /// A physical index beyond the end of the sequence.
    OutOfBounds,
}

impl WootError {
    /// A short description, for display at the UI edge.
    pub fn message(&self) -> String {
        match self {
            WootError::TargetNotFound => String::from_str("target not found"),
            WootError::ContextMissing => String::from_str("context missing"),
            WootError::MalformedOperation => String::from_str("malformed operation"),
            WootError::OutOfBounds => String::from_str("out of bounds"),
        }
    }
}

/// The replica's ordered character store, sentinels included.
#[derive(Debug)]
pub struct Sequence {
    chars: Vec<Character>,
}

impl View for Sequence {
    type V = Seq<CharV>;

    closed spec fn view(&self) -> Seq<CharV> {
        self.chars@.map_values(|ch: Character| ch@)
    }
}

/// Well-formedness of a sequence value: sentinels at both ends, globally
/// unique identifiers, and origin neighbors recorded on every interior
/// character.
pub open spec fn seq_wf(s: Seq<CharV>) -> bool {
    &&& s.len() >= 2
    &&& s[0] == cb_v()
    &&& s[s.len() - 1] == ce_v()
    &&& (forall|i: int, j: int| 0 <= i < j < s.len() ==> s[i].id != s[j].id)
    &&& (forall|i: int|
        0 < i < s.len() - 1 ==> (#[trigger] s[i]).prev_id is Some && s[i].next_id is Some)
}

/// Whether some character of `s` bears `id`.
pub open spec fn contains_id(s: Seq<CharV>, id: ID) -> bool {
    exists|i: int| 0 <= i < s.len() && s[i].id == id
}

/// The index of the character bearing `id` (meaningful when `contains_id`
/// holds; unique under `seq_wf`).
pub open spec fn index_of_id(s: Seq<CharV>, id: ID) -> int {
    choose|i: int| 0 <= i < s.len() && s[i].id == id
}

/// The user-observable text: the glyphs of the visible characters, in order.
pub open spec fn text_of(s: Seq<CharV>) -> Seq<char>
    decreases s.len(),
{
    if s.len() == 0 {
        Seq::empty()
    } else {
        (if s[0].visible {
            s[0].glyph
        } else {
            Seq::empty()
        }) + text_of(s.skip(1))
    }
}

/// The number of visible characters of `s`.
pub open spec fn visible_count(s: Seq<CharV>) -> nat
    decreases s.len(),
{
    if s.len() == 0 {
        0
    } else {
        (if s[0].visible {
            1nat
        } else {
            0nat
        }) + visible_count(s.skip(1))
    }
}

/// The `n`-th visible character of `s`, 1-based; `None` when `n` is zero or
/// exceeds the visible count.
pub open spec fn nth_visible(s: Seq<CharV>, n: int) -> Option<CharV>
    decreases s.len(),
{
    if n <= 0 || s.len() == 0 {
        None::<CharV>
    } else if s[0].visible {
        if n == 1 {
            Some(s[0])
        } else {
            nth_visible(s.skip(1), n - 1)
        }
    } else {
        nth_visible(s.skip(1), n)
    }
}

/// A fresh sequence holding exactly the two sentinels.
pub fn new_sequence() -> (r: Sequence)
    ensures
        r@ =~= seq![cb_v(), ce_v()],
        seq_wf(r@),
{
    let mut chars: Vec<Character> = Vec::new();
    chars.push(cb());
    chars.push(ce());
    let r = Sequence { chars };
    proof {
        assert(r@ =~= seq![cb_v(), ce_v()]);
    }
    r
}

impl Sequence {
    /// The number of characters physically stored, tombstones and sentinels
    /// included.
    pub fn len(&self) -> (n: usize)
        ensures
            n == self@.len(),
    {
        self.chars.len()
    }

    /// The physical index of the character bearing `c`'s identifier: the
    /// first index whose identifier matches, or `None` when none does.
    pub fn pos(&self, c: &Character) -> (r: Option<usize>)
        ensures
            match r {
                Some(p) => p < self@.len() && self@[p as int].id == c.id
                    && (forall|k: int| 0 <= k < p ==> self@[k].id != c.id),
                None => !contains_id(self@, c.id),
            },
    {
        let mut i: usize = 0;
        while i < self.chars.len()
            invariant
                i <= self@.len(),
                forall|k: int| 0 <= k < i ==> self@[k].id != c.id,
            decreases self@.len() - i,
        {
            if self.chars[i].id == c.id {
                return Some(i);
            }
            i += 1;
        }
        None
    }

    /// The user-visible string: the glyphs of the visible characters, in order.
    pub fn text(&self) -> (r: String)
        ensures
            r@ == text_of(self@),
    {
        let ghost s = self@;
        let mut ret = String::new();
        let mut i: usize = 0;
        proof {
            assert(s.skip(0) =~= s);
            assert(ret@ + text_of(s) =~= text_of(s));
        }
        while i < self.chars.len()
            invariant
                i <= s.len(),
                s == self@,
                text_of(s) == ret@ + text_of(s.skip(i as int)),
            decreases s.len() - i,
        {
            proof {
                assert(s.skip(i as int)[0] == s[i as int]);
                assert(s.skip(i as int).skip(1) =~= s.skip(i as int + 1));
            }
            if self.chars[i].visible {
                ret.append(self.chars[i].c.as_str());
            }
            i += 1;
        }
        proof {
            assert(s.skip(i as int) =~= Seq::<CharV>::empty());
            assert(ret@ =~= text_of(s));
        }
        ret
    }

    /// Places `ch` at physical index `p`, shifting the tail right; rejects an
    /// index beyond the last element.
    pub fn insert(&mut self, ch: &Character, p: usize) -> (r: Result<(), WootError>)
        ensures
            match r {
                Ok(()) => p < old(self)@.len() && final(self)@ == old(self)@.insert(
                    p as int,
                    ch@,
                ),
                Err(e) => e == WootError::OutOfBounds && p >= old(self)@.len() && final(self)@
                    == old(self)@,
            },
    {
        if p < self.chars.len() {
            self.chars.insert(p, ch.duplicate());
            proof {
                assert(self@ =~= old(self)@.insert(p as int, ch@));
            }
            Ok(())
        } else {
            Err(WootError::OutOfBounds)
        }
    }

    /// The physical index of the character bearing `id`, scanning from the
    /// front.
    fn pos_of_id(&self, id: ID) -> (r: Option<usize>)
        ensures
            match r {
                Some(p) => p < self@.len() && self@[p as int].id == id && (forall|k: int|
                    0 <= k < p ==> self@[k].id != id),
                None => !contains_id(self@, id),
            },
    {
        let mut i: usize = 0;
        while i < self.chars.len()
            invariant
                i <= self@.len(),
                forall|k: int| 0 <= k < i ==> self@[k].id != id,
            decreases self@.len() - i,
        {
            if self.chars[i].id == id {
                return Some(i);
            }
            i += 1;
        }
        None
    }

    /// The sub-sequence strictly between the characters bearing `c`'s and
    /// `d`'s identifiers (empty when `d` does not come after `c`); fails when
    /// either endpoint is absent.
    pub fn subseq(&self, c: &Character, d: &Character) -> (r: Result<SubSequence, WootError>)
        requires
            seq_wf(self@),
        ensures
            match r {
                Ok(ss) => contains_id(self@, c.id) && contains_id(self@, d.id) && ss@
                    == subseq_of(self@, c.id, d.id),
                Err(e) => e == WootError::TargetNotFound && (!contains_id(self@, c.id)
                    || !contains_id(self@, d.id)),
            },
    {
        let ghost s = self@;
        let l = match self.pos_of_id(c.id) {
            Some(l) => l,
            None => {
                return Err(WootError::TargetNotFound);
            },
        };
        let r = match self.pos_of_id(d.id) {
            Some(r) => r,
            None => {
                return Err(WootError::TargetNotFound);
            },
        };
        proof {
            lemma_index_of_id(s, c.id, l as int);
            lemma_index_of_id(s, d.id, r as int);
        }
        let mut out: Vec<Character> = Vec::new();
        if l < r {
            let mut k: usize = l + 1;
            while k < r
                invariant
                    l + 1 <= k <= r <= s.len(),
                    s == self@,
                    out@.len() == k - l - 1,
                    forall|t: int|
                        0 <= t < out@.len() ==> (#[trigger] out@[t])@ == s[l + 1 + t],
                decreases r - k,
            {
                let d = self.chars[k].duplicate();
                proof {
                    assert(d@ == s[k as int]);
                }
                out.push(d);
                k += 1;
            }
        }
        let ss = SubSequence { chars: out };
        proof {
            assert forall|t: int| 0 <= t < ss@.len() implies ss@[t] == subseq_of(
                s,
                c.id,
                d.id,
            )[t] by {}
            assert(ss@ =~= subseq_of(s, c.id, d.id));
        }
        Ok(ss)
    }

    /// The `p`-th visible character, 1-based; `None` when `p` is zero or
    /// exceeds the visible count.
    pub fn ith_visible(&self, p: usize) -> (r: Option<Character>)
        ensures
            match r {
                Some(ch) => nth_visible(self@, p as int) == Some(ch@),
                None => nth_visible(self@, p as int) is None,
            },
    {
        let ghost s = self@;
        if p == 0 {
            return None;
        }
        let mut count: usize = 0;
        let mut i: usize = 0;
        proof {
            assert(s.skip(0) =~= s);
        }
        while i < self.chars.len()
            invariant
                i <= s.len(),
                s == self@,
                count < p,
                p <= usize::MAX,
                nth_visible(s, p as int) == nth_visible(s.skip(i as int), p - count),
            decreases s.len() - i,
        {
            proof {
                assert(s.skip(i as int)[0] == s[i as int]);
                assert(s.skip(i as int).skip(1) =~= s.skip(i as int + 1));
            }
            if self.chars[i].visible {
                count += 1;
                if count == p {
                    return Some(self.chars[i].duplicate());
                }
            }
            i += 1;
        }
        proof {
            assert(s.skip(i as int) =~= Seq::<CharV>::empty());
        }
        None
    }
}

/// What [`Sequence::subseq`] yields on success: the characters strictly
/// between the endpoints (empty when the second does not come after the
/// first).
pub open spec fn subseq_of(s: Seq<CharV>, cid: ID, did: ID) -> Seq<CharV> {
    let l = index_of_id(s, cid);
    let r = index_of_id(s, did);
    if l + 1 <= r {
        s.subrange(l + 1, r)
    } else {
        Seq::empty()
    }
}

/// Under uniqueness of identifiers, any index holding `id` is the index of
/// `id`.
pub proof fn lemma_index_of_id(s: Seq<CharV>, id: ID, i: int)
    requires
        seq_wf(s),
        0 <= i < s.len(),
        s[i].id == id,
    ensures
        contains_id(s, id),
        index_of_id(s, id) == i,
{
    assert(contains_id(s, id));
    let j = index_of_id(s, id);
    assert(0 <= j < s.len() && s[j].id == id);
    if i < j {
        assert(s[i].id != s[j].id);
    } else if j < i {
        assert(s[j].id != s[i].id);
    }
}

/// A detached slice of a sequence, as returned by [`Sequence::subseq`].
pub struct SubSequence {
    chars: Vec<Character>,
}

impl View for SubSequence {
    type V = Seq<CharV>;

    closed spec fn view(&self) -> Seq<CharV> {
        self.chars@.map_values(|ch: Character| ch@)
    }
}

impl SubSequence {
    /// How many characters the slice holds, tombstones included.
    pub fn len(&self) -> (n: usize)
        ensures
            n == self@.len(),
    {
        self.chars.len()
    }

    /// The index within the slice of the character bearing `c`'s identifier.
    pub fn pos(&self, c: &Character) -> (r: Option<usize>)
        ensures
            match r {
                Some(p) => p < self@.len() && self@[p as int].id == c.id && (forall|k: int|
                    0 <= k < p ==> self@[k].id != c.id),
                None => !contains_id(self@, c.id),
            },
    {
        let mut i: usize = 0;
        while i < self.chars.len()
            invariant
                i <= self@.len(),
                forall|k: int| 0 <= k < i ==> self@[k].id != c.id,
            decreases self@.len() - i,
        {
            if self.chars[i].id == c.id {
                return Some(i);
            }
            i += 1;
        }
        None
    }

    /// The character at slice index `p`.
    pub fn nth(&self, p: usize) -> (r: Option<&Character>)
        ensures
            match r {
                Some(ch) => p < self@.len() && ch@ == self@[p as int],
                None => p >= self@.len(),
            },
    {
        if p < self.chars.len() {
            Some(&self.chars[p])
        } else {
            None
        }
    }
}

/// The serializable record of one edit, carrying enough context to be
/// integrated at any replica: the tag (`"INS"` or `"DEL"`), the subject
/// character, and for insertions the origin neighbors.
#[derive(Debug)]
pub struct Operation {
    pub op: String,
    pub c: Character,
    pub arg1: Option<Character>,
    pub arg2: Option<Character>,
}

/// The mathematical value of an [`Operation`].
#[verifier::ext_equal]
pub struct OpV {
    pub op: Seq<char>,
    pub c: CharV,
    pub arg1: Option<CharV>,
    pub arg2: Option<CharV>,
}

impl View for Operation {
    type V = OpV;

    open spec fn view(&self) -> OpV {
        OpV {
            op: self.op@,
            c: self.c@,
            arg1: match self.arg1 {
                Some(a) => Some(a@),
                None => None,
            },
            arg2: match self.arg2 {
                Some(a) => Some(a@),
                None => None,
            },
        }
    }
}

/// One replica: its site identifier, its logical clock, and its sequence.
#[derive(Debug)]
pub struct Site {
    pub id: i64,
    pub clock: i64,
    pub seq: Sequence,
}

/// The mathematical value of a [`Site`].
pub struct SiteV {
    pub id: i64,
    pub clock: i64,
    pub seq: Seq<CharV>,
}

impl View for Site {
    type V = SiteV;

    open spec fn view(&self) -> SiteV {
        SiteV { id: self.id, clock: self.clock, seq: self.seq@ }
    }
}

/// A fresh replica with the given site identifier and clock, holding only
/// the sentinels.
pub fn new_site(id: i64, clock: i64) -> (r: Site)
    ensures
        r@.id == id,
        r@.clock == clock,
        r@.seq =~= seq![cb_v(), ce_v()],
        seq_wf(r@.seq),
{
    Site { id, clock, seq: new_sequence() }
}

impl Site {
    /// Advances the logical clock by one.
    pub fn countup(&mut self)
        requires
            old(self)@.clock < i64::MAX,
        ensures
            final(self)@.clock == old(self)@.clock + 1,
            final(self)@.id == old(self)@.id,
            final(self)@.seq == old(self)@.seq,
    {
        self.clock = self.clock + 1;
    }
}

/// What deleting the character bearing `id` does to a sequence: its tombstone
/// flag is set, everything else stays; absent targets are rejected.
pub open spec fn del_outcome(pre: Seq<CharV>, id: ID) -> Result<Seq<CharV>, WootError> {
    if contains_id(pre, id) {
        let k = index_of_id(pre, id);
        Ok(pre.update(k, CharV { visible: false, ..pre[k] }))
    } else {
        Err(WootError::TargetNotFound)
    }
}

/// Tombstoning one character preserves sequence well-formedness.
pub proof fn lemma_del_wf(s: Seq<CharV>, id: ID)
    requires
        seq_wf(s),
        del_outcome(s, id) is Ok,
    ensures
        seq_wf(del_outcome(s, id).unwrap()),
{
    let k = index_of_id(s, id);
    let post = del_outcome(s, id).unwrap();
    assert(post[0] =~= s[0]);
    assert(post[post.len() - 1] =~= s[s.len() - 1]);
}

/// The character some visible rank names is physically present.
pub proof fn lemma_nth_visible_mem(s: Seq<CharV>, n: int)
    requires
        nth_visible(s, n) is Some,
    ensures
        exists|i: int|
            0 <= i < s.len() && s[i] == nth_visible(s, n).unwrap() && (#[trigger] s[i]).visible,
    decreases s.len(),
{
    if n <= 0 || s.len() == 0 {
    } else if s[0].visible && n == 1 {
        assert(s[0] == nth_visible(s, n).unwrap() && s[0].visible);
    } else {
        let m = if s[0].visible {
            n - 1
        } else {
            n
        };
        lemma_nth_visible_mem(s.skip(1), m);
        let i = choose|i: int|
            0 <= i < s.skip(1).len() && s.skip(1)[i] == nth_visible(s.skip(1), m).unwrap() && (
            #[trigger] s.skip(1)[i]).visible;
        assert(s[i + 1] == s.skip(1)[i]);
    }
}

impl Site {
    /// Locates the character bearing `c`'s identifier and sets its tombstone
    /// flag; emits the `DEL` operation for broadcast. Idempotent; an absent
    /// identifier is a causal precondition violation.
    pub fn integrate_del(&mut self, c: Character) -> (r: Result<Operation, WootError>)
        requires
            seq_wf(old(self)@.seq),
        ensures
            final(self)@.id == old(self)@.id,
            final(self)@.clock == old(self)@.clock,
            seq_wf(final(self)@.seq),
            match r {
                Ok(op) => del_outcome(old(self)@.seq, c@.id) == Ok::<Seq<CharV>, WootError>(
                    final(self)@.seq,
                ) && op@.op == "DEL"@ && op@.c == c@ && op@.arg1 is None && op@.arg2 is None,
                Err(e) => del_outcome(old(self)@.seq, c@.id) == Err::<Seq<CharV>, WootError>(e)
                    && final(self)@.seq == old(self)@.seq,
            },
    {
        let ghost s = self@.seq;
        match self.seq.pos_of_id(c.id) {
            None => Err(WootError::TargetNotFound),
            Some(k) => {
                proof {
                    lemma_index_of_id(s, c.id, k as int);
                }
                let mut ch = self.seq.chars.remove(k);
                ch.visible = false;
                self.seq.chars.insert(k, ch);
                proof {
                    assert(self@.seq =~= s.update(
                        k as int,
                        CharV { visible: false, ..s[k as int] },
                    ));
                    lemma_del_wf(s, c@.id);
                }
                Ok(
                    Operation {
                        op: String::from_str("DEL"),
                        c,
                        arg1: None,
                        arg2: None,
                    },
                )
            },
        }
    }

    /// Deletes the `p`-th visible character, 1-based; fails with
    /// `TargetNotFound` when no such character exists.
    pub fn generate_del(&mut self, p: usize) -> (r: Result<Operation, WootError>)
        requires
            seq_wf(old(self)@.seq),
        ensures
            final(self)@.id == old(self)@.id,
            final(self)@.clock == old(self)@.clock,
            seq_wf(final(self)@.seq),
            match r {
                Ok(op) => nth_visible(old(self)@.seq, p as int) == Some(op@.c) && del_outcome(
                    old(self)@.seq,
                    op@.c.id,
                ) == Ok::<Seq<CharV>, WootError>(final(self)@.seq) && op@.op == "DEL"@
                    && op@.arg1 is None && op@.arg2 is None,
                Err(e) => e == WootError::TargetNotFound && nth_visible(old(self)@.seq, p as int)
                    is None && final(self)@.seq == old(self)@.seq,
            },
    {
        let ghost s = self@.seq;
        match self.seq.ith_visible(p) {
            None => Err(WootError::TargetNotFound),
            Some(c) => {
                proof {
                    lemma_nth_visible_mem(s, p as int);
                    assert(contains_id(s, c@.id));
                }
                self.integrate_del(c)
            },
        }
    }
}

/// Whether the character at index `k` belongs to the candidate list of an
/// insertion bounded by `cpid` and `cnid`: its own origin interval is not
/// strictly narrower than the bounds.
pub open spec fn ins_admits(s: Seq<CharV>, cpid: ID, cnid: ID, k: int) -> bool {
    id_le(s[k].prev_id.unwrap(), cpid) && id_le(cnid, s[k].next_id.unwrap())
}

/// The indices in `[from, to)` of the candidate characters, in order.
pub open spec fn ins_candidates(s: Seq<CharV>, cpid: ID, cnid: ID, from: int, to: int) -> Seq<
    int,
>
    decreases to - from,
{
    if to <= from {
        Seq::empty()
    } else if ins_admits(s, cpid, cnid, from) {
        seq![from] + ins_candidates(s, cpid, cnid, from + 1, to)
    } else {
        ins_candidates(s, cpid, cnid, from + 1, to)
    }
}

/// The candidate indices lie in `[from, to)` and increase strictly.
pub proof fn lemma_candidates_props(s: Seq<CharV>, cpid: ID, cnid: ID, from: int, to: int)
    ensures
        forall|t: int|
            0 <= t < ins_candidates(s, cpid, cnid, from, to).len() ==> from <= #[trigger] ins_candidates(
                s,
                cpid,
                cnid,
                from,
                to,
            )[t] < to,
        forall|t1: int, t2: int|
            0 <= t1 < t2 < ins_candidates(s, cpid, cnid, from, to).len() ==> ins_candidates(
                s,
                cpid,
                cnid,
                from,
                to,
            )[t1] < ins_candidates(s, cpid, cnid, from, to)[t2],
    decreases to - from,
{
    if to <= from {
    } else {
        let cand = ins_candidates(s, cpid, cnid, from, to);
        let rest = ins_candidates(s, cpid, cnid, from + 1, to);
        lemma_candidates_props(s, cpid, cnid, from + 1, to);
        if ins_admits(s, cpid, cnid, from) {
            assert(cand == seq![from] + rest);
            assert(cand[0] == from);
            assert(forall|t: int| 1 <= t < cand.len() ==> #[trigger] cand[t] == rest[t - 1]);
        }
    }
}

/// Extending the scanned range by one index appends that index exactly when
/// it is admitted.
pub proof fn lemma_candidates_snoc(s: Seq<CharV>, cpid: ID, cnid: ID, from: int, to: int)
    requires
        from <= to,
    ensures
        ins_candidates(s, cpid, cnid, from, to + 1) == ins_candidates(s, cpid, cnid, from, to)
            + (if ins_admits(s, cpid, cnid, to) {
            seq![to]
        } else {
            Seq::<int>::empty()
        }),
    decreases to - from,
{
    let tail = if ins_admits(s, cpid, cnid, to) {
        seq![to]
    } else {
        Seq::<int>::empty()
    };
    if from == to {
        assert(ins_candidates(s, cpid, cnid, from + 1, to + 1) =~= Seq::<int>::empty());
        assert(ins_candidates(s, cpid, cnid, from, to + 1) =~= ins_candidates(
            s,
            cpid,
            cnid,
            from,
            to,
        ) + tail);
    } else {
        lemma_candidates_snoc(s, cpid, cnid, from + 1, to);
        if ins_admits(s, cpid, cnid, from) {
            assert(seq![from] + (ins_candidates(s, cpid, cnid, from + 1, to) + tail) =~= (
            seq![from] + ins_candidates(s, cpid, cnid, from + 1, to)) + tail);
        }
    }
}

/// The first index at or after `i` in the candidate list `l` whose
/// character's identifier is not below `cid`; the last index of `l` when all
/// are below.
pub open spec fn ins_walk(s: Seq<CharV>, l: Seq<int>, cid: ID, i: int) -> int
    decreases l.len() - i,
{
    if i >= l.len() - 1 {
        i
    } else if id_lt(s[l[i]].id, cid) {
        ins_walk(s, l, cid, i + 1)
    } else {
        i
    }
}

/// The walk stays within the list.
pub proof fn lemma_walk_range(s: Seq<CharV>, l: Seq<int>, cid: ID, i: int)
    requires
        0 <= i <= l.len() - 1,
    ensures
        i <= ins_walk(s, l, cid, i) <= l.len() - 1,
    decreases l.len() - i,
{
    if i < l.len() - 1 && id_lt(s[l[i]].id, cid) {
        lemma_walk_range(s, l, cid, i + 1);
    }
}

/// The physical index at which the WOOT algorithm places a character with
/// identifier `cid`, given the current physical indices `pp < pn` of its
/// (possibly narrowed) origin neighbors: narrow the interval through the
/// candidate list by identifier order until the between-slice offers no
/// candidate, then place the character just before the right neighbor.
pub open spec fn ins_index(s: Seq<CharV>, cid: ID, pp: int, pn: int) -> int
    decreases pn - pp,
        via ins_index_decreases
{
    if pn <= pp + 1 {
        pn
    } else {
        let l = seq![pp] + ins_candidates(s, s[pp].id, s[pn].id, pp + 1, pn) + seq![pn];
        if l.len() == 2 {
            pn
        } else {
            let i = ins_walk(s, l, cid, 1);
            ins_index(s, cid, l[i - 1], l[i])
        }
    }
}

/// The candidate pair the walk selects is strictly narrower than `(pp, pn)`.
pub proof fn lemma_ins_step_narrows(s: Seq<CharV>, cid: ID, pp: int, pn: int)
    requires
        pn > pp + 1,
        (seq![pp] + ins_candidates(s, s[pp].id, s[pn].id, pp + 1, pn) + seq![pn]).len() != 2,
    ensures
        ({
            let l = seq![pp] + ins_candidates(s, s[pp].id, s[pn].id, pp + 1, pn) + seq![pn];
            let i = ins_walk(s, l, cid, 1);
            &&& 1 <= i <= l.len() - 1
            &&& pp <= l[i - 1]
            &&& l[i - 1] < l[i]
            &&& l[i] <= pn
            &&& l[i] - l[i - 1] < pn - pp
        }),
{
    let cand = ins_candidates(s, s[pp].id, s[pn].id, pp + 1, pn);
    let l = seq![pp] + cand + seq![pn];
    lemma_candidates_props(s, s[pp].id, s[pn].id, pp + 1, pn);
    lemma_walk_range(s, l, cid, 1);
    let i = ins_walk(s, l, cid, 1);
    assert(l.len() == cand.len() + 2);
    assert(l[0] == pp);
    assert(l[l.len() - 1] == pn);
    assert(forall|t: int| 0 < t < l.len() - 1 ==> #[trigger] l[t] == cand[t - 1]);
    assert(l[i - 1] < l[i]);
    if i - 1 == 0 {
        assert(l[i] == cand[0]);
    } else if i == l.len() - 1 {
        assert(l[i - 1] == cand[i - 2]);
    }
}

#[via_fn]
proof fn ins_index_decreases(s: Seq<CharV>, cid: ID, pp: int, pn: int) {
    if pn > pp + 1 {
        let l = seq![pp] + ins_candidates(s, s[pp].id, s[pn].id, pp + 1, pn) + seq![pn];
        if l.len() != 2 {
            lemma_ins_step_narrows(s, cid, pp, pn);
        }
    }
}

/// The algorithm places the character strictly inside the interval of its
/// neighbors.
pub proof fn lemma_ins_index_range(s: Seq<CharV>, cid: ID, pp: int, pn: int)
    requires
        pp < pn,
    ensures
        pp < ins_index(s, cid, pp, pn) <= pn,
    decreases pn - pp,
{
    if pn <= pp + 1 {
    } else {
        let l = seq![pp] + ins_candidates(s, s[pp].id, s[pn].id, pp + 1, pn) + seq![pn];
        if l.len() != 2 {
            lemma_ins_step_narrows(s, cid, pp, pn);
            let i = ins_walk(s, l, cid, 1);
            lemma_ins_index_range(s, cid, l[i - 1], l[i]);
        }
    }
}

/// What integrating an insertion does to a sequence: a missing or misordered
/// context is rejected, an already-present character is a no-op, and
/// otherwise the character lands at the index the WOOT algorithm determines.
pub open spec fn ins_outcome(pre: Seq<CharV>, c: CharV, cpid: ID, cnid: ID) -> Result<
    Seq<CharV>,
    WootError,
> {
    if !contains_id(pre, cpid) || !contains_id(pre, cnid) {
        Err(WootError::ContextMissing)
    } else if contains_id(pre, c.id) {
        Ok(pre)
    } else if index_of_id(pre, cpid) >= index_of_id(pre, cnid) {
        Err(WootError::ContextMissing)
    } else {
        Ok(
            pre.insert(
                ins_index(pre, c.id, index_of_id(pre, cpid), index_of_id(pre, cnid)),
                c,
            ),
        )
    }
}

/// Inserting a fresh interior character preserves well-formedness.
pub proof fn lemma_insert_wf(s: Seq<CharV>, c: CharV, j: int)
    requires
        seq_wf(s),
        1 <= j <= s.len() - 1,
        !contains_id(s, c.id),
        c.prev_id is Some,
        c.next_id is Some,
    ensures
        seq_wf(s.insert(j, c)),
{
    let post = s.insert(j, c);
    s.insert_ensures(j, c);
    assert(forall|k: int| 0 <= k < s.len() ==> (#[trigger] s[k]).id != c.id);
    assert(post[0] == s[0]);
    assert(post[post.len() - 1] == s[s.len() - 1]);
    assert forall|i1: int, i2: int| 0 <= i1 < i2 < post.len() implies post[i1].id
        != post[i2].id by {
        if i1 < j {
            assert(post[i1] == s[i1]);
        } else if i1 > j {
            assert(post[i1] == s[i1 - 1]);
        }
        if i2 < j {
            assert(post[i2] == s[i2]);
        } else if i2 > j {
            assert(post[i2] == s[i2 - 1]);
        }
    }
    assert forall|i: int| 0 < i < post.len() - 1 implies (#[trigger] post[i]).prev_id is Some
        && post[i].next_id is Some by {
        if i < j {
            assert(post[i] == s[i]);
        } else if i > j {
            assert(post[i] == s[i - 1]);
        }
    }
}

impl Site {
    /// Integrates an insertion: places `c` between the characters bearing
    /// `cp`'s and `cn`'s identifiers, at the position the WOOT candidate
    /// walk determines. A character already present is left alone; a missing
    /// or misordered context is a causal precondition failure.
    pub fn integrate_ins(&mut self, c: Character, cp: &Character, cn: &Character) -> (r: Result<
        Operation,
        WootError,
    >)
        requires
            seq_wf(old(self)@.seq),
            c.prev_id is Some,
            c.next_id is Some,
        ensures
            final(self)@.id == old(self)@.id,
            final(self)@.clock == old(self)@.clock,
            seq_wf(final(self)@.seq),
            match r {
                Ok(op) => ins_outcome(old(self)@.seq, c@, cp@.id, cn@.id) == Ok::<
                    Seq<CharV>,
                    WootError,
                >(final(self)@.seq) && op@.op == "INS"@ && op@.c == c@ && op@.arg1 == Some(cp@)
                    && op@.arg2 == Some(cn@),
                Err(e) => ins_outcome(old(self)@.seq, c@, cp@.id, cn@.id) == Err::<
                    Seq<CharV>,
                    WootError,
                >(e) && final(self)@.seq == old(self)@.seq,
            },
    {
        let ghost s = old(self)@.seq;
        let pp0 = match self.seq.pos_of_id(cp.id) {
            Some(p) => p,
            None => {
                return Err(WootError::ContextMissing);
            },
        };
        let pn0 = match self.seq.pos_of_id(cn.id) {
            Some(p) => p,
            None => {
                return Err(WootError::ContextMissing);
            },
        };
        proof {
            lemma_index_of_id(s, cp@.id, pp0 as int);
            lemma_index_of_id(s, cn@.id, pn0 as int);
        }
        if self.seq.pos_of_id(c.id).is_some() {
            return Ok(
                Operation {
                    op: String::from_str("INS"),
                    c,
                    arg1: Some(cp.duplicate()),
                    arg2: Some(cn.duplicate()),
                },
            );
        }
        if pp0 >= pn0 {
            return Err(WootError::ContextMissing);
        }
        let mut pp = pp0;
        let mut pn = pn0;
        loop
            invariant
                s == old(self)@.seq,
                self@.seq == s,
                self@.id == old(self)@.id,
                self@.clock == old(self)@.clock,
                seq_wf(s),
                0 <= pp < pn < s.len(),
                !contains_id(s, c@.id),
                c.prev_id is Some,
                c.next_id is Some,
                contains_id(s, cp@.id),
                contains_id(s, cn@.id),
                index_of_id(s, cp@.id) == pp0 < pn0 == index_of_id(s, cn@.id),
                ins_index(s, c@.id, pp0 as int, pn0 as int) == ins_index(
                    s,
                    c@.id,
                    pp as int,
                    pn as int,
                ),
            decreases pn - pp,
        {
            let ghost cid = c@.id;
            if pn - pp == 1 {
                proof {
                    lemma_insert_wf(s, c@, pn as int);
                }
                match self.seq.insert(&c, pn) {
                    Ok(()) => {},
                    Err(_) => {
                        proof {
                            assert(false);
                        }
                        return Err(WootError::OutOfBounds);
                    },
                }
                proof {
                    assert(ins_index(s, cid, pp as int, pn as int) == pn as int);
                    assert(self@.seq == s.insert(pn as int, c@));
                    assert(ins_outcome(s, c@, cp@.id, cn@.id) == Ok::<Seq<CharV>, WootError>(
                        self@.seq,
                    ));
                }
                return Ok(
                    Operation {
                        op: String::from_str("INS"),
                        c,
                        arg1: Some(cp.duplicate()),
                        arg2: Some(cn.duplicate()),
                    },
                );
            }
            let cpid = self.seq.chars[pp].id;
            let cnid = self.seq.chars[pn].id;
            proof {
                assert(cpid == s[pp as int].id && cnid == s[pn as int].id);
            }
            let mut l: Vec<usize> = Vec::new();
            l.push(pp);
            proof {
                assert(ins_candidates(s, cpid, cnid, pp + 1, pp + 1) =~= Seq::<int>::empty());
                assert(l@.map_values(|u: usize| u as int) =~= seq![pp as int] + ins_candidates(
                    s,
                    cpid,
                    cnid,
                    pp + 1,
                    pp + 1,
                ));
            }
            let mut k: usize = pp + 1;
            while k < pn
                invariant
                    pp + 1 <= k <= pn < s.len(),
                    self@.seq == s,
                    seq_wf(s),
                    cpid == s[pp as int].id,
                    cnid == s[pn as int].id,
                    l@.map_values(|u: usize| u as int) == seq![pp as int] + ins_candidates(
                        s,
                        cpid,
                        cnid,
                        pp + 1,
                        k as int,
                    ),
                decreases pn - k,
            {
                proof {
                    assert(s[k as int].prev_id is Some && s[k as int].next_id is Some);
                    assert(self.seq.chars@[k as int]@ == s[k as int]);
                }
                let spv = self.seq.chars[k].prev_id.unwrap();
                let snv = self.seq.chars[k].next_id.unwrap();
                let ghost lpre = l@;
                let admitted = spv.less_than_or_equal(&cpid) && cnid.less_than_or_equal(&snv);
                if admitted {
                    l.push(k);
                }
                proof {
                    lemma_candidates_snoc(s, cpid, cnid, pp + 1, k as int);
                    assert(admitted == ins_admits(s, cpid, cnid, k as int));
                    let f = |u: usize| u as int;
                    let goal = seq![pp as int] + ins_candidates(s, cpid, cnid, pp + 1, k + 1);
                    if admitted {
                        assert(l@ == lpre.push(k));
                        assert(goal =~= (seq![pp as int] + ins_candidates(
                            s,
                            cpid,
                            cnid,
                            pp + 1,
                            k as int,
                        )).push(k as int));
                        assert(l@.map_values(f) =~= lpre.map_values(f).push(k as int));
                    } else {
                        assert(goal =~= seq![pp as int] + ins_candidates(
                            s,
                            cpid,
                            cnid,
                            pp + 1,
                            k as int,
                        ));
                    }
                    assert(l@.map_values(f) =~= goal);
                }
                k += 1;
            }
            let ghost cand = ins_candidates(s, cpid, cnid, pp + 1, pn as int);
            l.push(pn);
            let ghost li = l@.map_values(|u: usize| u as int);
            proof {
                assert(li =~= (seq![pp as int] + cand) + seq![pn as int]);
                lemma_candidates_props(s, cpid, cnid, pp + 1, pn as int);
                assert(forall|t: int| 0 <= t < li.len() ==> 0 <= #[trigger] li[t] < s.len());
                assert(forall|t: int| 0 <= t < l@.len() ==> li[t] == #[trigger] l@[t]);
            }
            let mut i: usize = 1;
            while i < l.len() - 1 && self.seq.chars[l[i]].id.less_than(&c.id)
                invariant
                    self@.seq == s,
                    c@.id == cid,
                    2 <= l@.len(),
                    1 <= i <= l@.len() - 1,
                    li == l@.map_values(|u: usize| u as int),
                    forall|t: int| 0 <= t < li.len() ==> 0 <= #[trigger] li[t] < s.len(),
                    ins_walk(s, li, cid, 1) == ins_walk(s, li, cid, i as int),
                decreases l@.len() - i,
            {
                proof {
                    assert(s[li[i as int]].id == self.seq.chars@[l@[i as int] as int]@.id);
                }
                i += 1;
            }
            proof {
                assert(ins_walk(s, li, cid, i as int) == i);
            }
            if l.len() == 2 {
                proof {
                    assert(li.len() == 2);
                    assert(cand.len() == 0);
                    assert(ins_index(s, cid, pp as int, pn as int) == pn as int);
                    lemma_insert_wf(s, c@, pn as int);
                }
                match self.seq.insert(&c, pn) {
                    Ok(()) => {},
                    Err(_) => {
                        proof {
                            assert(false);
                        }
                        return Err(WootError::OutOfBounds);
                    },
                }
                proof {
                    assert(self@.seq == s.insert(pn as int, c@));
                    assert(ins_outcome(s, c@, cp@.id, cn@.id) == Ok::<Seq<CharV>, WootError>(
                        self@.seq,
                    ));
                }
                return Ok(
                    Operation {
                        op: String::from_str("INS"),
                        c,
                        arg1: Some(cp.duplicate()),
                        arg2: Some(cn.duplicate()),
                    },
                );
            }
            let new_pp = l[i - 1];
            let new_pn = l[i];
            proof {
                assert(li == seq![pp as int] + ins_candidates(s, s[pp as int].id, s[pn as int].id, pp + 1, pn as int) + seq![pn as int]);
                lemma_ins_step_narrows(s, cid, pp as int, pn as int);
                assert(new_pp as int == li[i - 1] && new_pn as int == li[i as int]);
                assert(ins_index(s, cid, pp as int, pn as int) == ins_index(
                    s,
                    cid,
                    new_pp as int,
                    new_pn as int,
                ));
            }
            pp = new_pp;
            pn = new_pn;
        }
    }
}

/// The physical index of the `n`-th visible character, or `-1` when there is
/// none.
pub open spec fn nth_visible_idx(s: Seq<CharV>, n: int) -> int
    decreases s.len(),
{
    if n <= 0 || s.len() == 0 {
        -1
    } else if s[0].visible && n == 1 {
        0
    } else {
        let r = nth_visible_idx(
            s.skip(1),
            if s[0].visible {
                n - 1
            } else {
                n
            },
        );
        if r < 0 {
            -1
        } else {
            r + 1
        }
    }
}

/// A visible rank resolves exactly when its physical index does, and the
/// index points at the named character.
pub proof fn lemma_nth_visible_idx(s: Seq<CharV>, n: int)
    ensures
        (nth_visible(s, n) is Some) == (nth_visible_idx(s, n) >= 0),
        nth_visible_idx(s, n) >= 0 ==> nth_visible_idx(s, n) < s.len() && s[nth_visible_idx(
            s,
            n,
        )] == nth_visible(s, n).unwrap() && s[nth_visible_idx(s, n)].visible,
    decreases s.len(),
{
    if n <= 0 || s.len() == 0 {
    } else if s[0].visible && n == 1 {
    } else {
        let m = if s[0].visible {
            n - 1
        } else {
            n
        };
        lemma_nth_visible_idx(s.skip(1), m);
    }
}

/// Physical indices of visible ranks increase with the rank.
pub proof fn lemma_nth_visible_idx_mono(s: Seq<CharV>, n: int)
    requires
        n >= 1,
        nth_visible_idx(s, n) >= 0,
        nth_visible_idx(s, n + 1) >= 0,
    ensures
        nth_visible_idx(s, n) < nth_visible_idx(s, n + 1),
    decreases s.len(),
{
    if s.len() == 0 {
    } else if s[0].visible {
        if n == 1 {
        } else {
            lemma_nth_visible_idx_mono(s.skip(1), n - 1);
        }
    } else {
        lemma_nth_visible_idx_mono(s.skip(1), n);
    }
}

/// The visible predecessor of an insertion at visible position `p`: the
/// `p-1`-th visible character, defaulting to the begin sentinel.
pub open spec fn ins_context_prev(s: Seq<CharV>, p: int) -> CharV {
    match nth_visible(s, p - 1) {
        Some(ch) => ch,
        None => cb_v(),
    }
}

/// The visible successor of an insertion at visible position `p`: the `p`-th
/// visible character, defaulting to the end sentinel.
pub open spec fn ins_context_next(s: Seq<CharV>, p: int) -> CharV {
    match nth_visible(s, p) {
        Some(ch) => ch,
        None => ce_v(),
    }
}

/// The character a site generates for a local insertion of `g` at visible
/// position `p`: a fresh identifier from the bumped clock, and the current
/// visible neighbors as origin interval.
pub open spec fn gen_ins_char(site: SiteV, p: int, g: Seq<char>) -> CharV {
    CharV {
        id: ID { ns: site.id, ng: (site.clock + 1) as i64 },
        glyph: g,
        visible: true,
        prev_id: Some(ins_context_prev(site.seq, p).id),
        next_id: Some(ins_context_next(site.seq, p).id),
    }
}

/// The insertion context of a well-formed sequence is present and ordered.
proof fn lemma_ins_context(s: Seq<CharV>, p: int)
    requires
        seq_wf(s),
        p >= 1,
    ensures
        contains_id(s, ins_context_prev(s, p).id),
        contains_id(s, ins_context_next(s, p).id),
        index_of_id(s, ins_context_prev(s, p).id) < index_of_id(s, ins_context_next(s, p).id),
{
    let cpv = ins_context_prev(s, p);
    let cnv = ins_context_next(s, p);
    lemma_nth_visible_idx(s, p - 1);
    lemma_nth_visible_idx(s, p);
    let icp: int = if nth_visible(s, p - 1) is Some {
        nth_visible_idx(s, p - 1)
    } else {
        0
    };
    let icn: int = if nth_visible(s, p) is Some {
        nth_visible_idx(s, p)
    } else {
        s.len() - 1
    };
    assert(s[icp] == cpv && s[icn] == cnv);
    lemma_index_of_id(s, cpv.id, icp);
    lemma_index_of_id(s, cnv.id, icn);
    if nth_visible(s, p - 1) is Some {
        assert(icp != 0 && icp != s.len() - 1);
    }
    if nth_visible(s, p) is Some {
        assert(icn != 0 && icn != s.len() - 1);
    }
    if nth_visible(s, p - 1) is Some && nth_visible(s, p) is Some {
        lemma_nth_visible_idx_mono(s, p - 1);
    }
}

impl Site {
    /// Generates and locally integrates an insertion of `ch` so that it
    /// becomes the new `p`-th visible character (1-based), bumping the clock;
    /// returns the operation to broadcast.
    pub fn generate_ins(&mut self, p: usize, ch: &str) -> (r: Result<Operation, WootError>)
        requires
            p >= 1,
            old(self)@.clock < i64::MAX,
            seq_wf(old(self)@.seq),
        ensures
            final(self)@.id == old(self)@.id,
            final(self)@.clock == old(self)@.clock + 1,
            seq_wf(final(self)@.seq),
            match r {
                Ok(op) => op@.op == "INS"@ && op@.c == gen_ins_char(old(self)@, p as int, ch@)
                    && op@.arg1 == Some(ins_context_prev(old(self)@.seq, p as int)) && op@.arg2
                    == Some(ins_context_next(old(self)@.seq, p as int)) && ins_outcome(
                    old(self)@.seq,
                    op@.c,
                    ins_context_prev(old(self)@.seq, p as int).id,
                    ins_context_next(old(self)@.seq, p as int).id,
                ) == Ok::<Seq<CharV>, WootError>(final(self)@.seq),
                Err(_) => false,
            },
    {
        let ghost s = old(self)@.seq;
        self.clock = self.clock + 1;
        let cp = match self.seq.ith_visible(p - 1) {
            Some(x) => x,
            None => cb(),
        };
        let cn = match self.seq.ith_visible(p) {
            Some(x) => x,
            None => ce(),
        };
        proof {
            assert(cp@ == ins_context_prev(s, p as int));
            assert(cn@ == ins_context_next(s, p as int));
            lemma_ins_context(s, p as int);
        }
        let c = Character {
            id: ID { ns: self.id, ng: self.clock },
            c: String::from_str(ch),
            visible: true,
            prev_id: Some(cp.id),
            next_id: Some(cn.id),
        };
        proof {
            assert(c@ =~= gen_ins_char(old(self)@, p as int, ch@));
        }
        match self.integrate_ins(c, &cp, &cn) {
            Ok(op) => Ok(op),
            Err(e) => {
                proof {
                    assert(false);
                }
                Err(e)
            },
        }
    }
}

/// What one operation record does to a sequence: insertions and deletions
/// dispatch on the tag; an unknown tag or an insertion without its full
/// context is rejected as malformed.
pub open spec fn op_outcome(pre: Seq<CharV>, op: OpV) -> Result<Seq<CharV>, WootError> {
    if op.op == "INS"@ {
        if op.arg1 is Some && op.arg2 is Some && op.c.prev_id is Some && op.c.next_id is Some {
            ins_outcome(pre, op.c, op.arg1.unwrap().id, op.arg2.unwrap().id)
        } else {
            Err(WootError::MalformedOperation)
        }
    } else if op.op == "DEL"@ {
        del_outcome(pre, op.c.id)
    } else {
        Err(WootError::MalformedOperation)
    }
}

impl Site {
    /// Integrates one (typically remote) operation, dispatching on its tag;
    /// echoes the operation for further propagation.
    pub fn execute(&mut self, operation: Operation) -> (r: Result<Operation, WootError>)
        requires
            seq_wf(old(self)@.seq),
        ensures
            final(self)@.id == old(self)@.id,
            final(self)@.clock == old(self)@.clock,
            seq_wf(final(self)@.seq),
            match r {
                Ok(ret) => op_outcome(old(self)@.seq, operation@) == Ok::<Seq<CharV>, WootError>(
                    final(self)@.seq,
                ) && ret@.op == operation@.op && ret@.c == operation@.c && (operation@.op
                    == "INS"@ ==> ret@.arg1 == operation@.arg1 && ret@.arg2 == operation@.arg2)
                    && (operation@.op == "DEL"@ ==> ret@.arg1 is None && ret@.arg2 is None),
                Err(e) => op_outcome(old(self)@.seq, operation@) == Err::<Seq<CharV>, WootError>(
                    e,
                ) && final(self)@.seq == old(self)@.seq,
            },
    {
        proof {
            reveal_strlit("INS");
            reveal_strlit("DEL");
            assert("INS"@[0] == 'I' && "DEL"@[0] == 'D');
            assert("INS"@ != "DEL"@);
        }
        let is_ins = operation.op == String::from_str("INS");
        let is_del = operation.op == String::from_str("DEL");
        let Operation { op, c, arg1, arg2 } = operation;
        if is_ins {
            match (arg1, arg2) {
                (Some(a1), Some(a2)) => {
                    if c.prev_id.is_some() && c.next_id.is_some() {
                        match self.integrate_ins(c, &a1, &a2) {
                            Ok(ret) => Ok(ret),
                            Err(e) => Err(e),
                        }
                    } else {
                        Err(WootError::MalformedOperation)
                    }
                },
                _ => Err(WootError::MalformedOperation),
            }
        } else if is_del {
            self.integrate_del(c)
        } else {
            Err(WootError::MalformedOperation)
        }
    }
}

} // verus!
