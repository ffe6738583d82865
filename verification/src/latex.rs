//! Keeping source positions accurate while mathematical notation is cut out
//! of a document.
//!
//! A document `A` is turned into a document `B` by replacing some regions of
//! `A` with placeholder tokens. The [`ByteIndexMap`] records every rewritten
//! region so that a byte position found in `B` can be mapped back to the
//! byte position it came from in `A`.

use crate::hashed_regex::{
    regex_compiles, regex_replaced, regex_spans, spans_in_order, spliced, HashedRegex,
};
use vstd::prelude::*;
use vstd::utf8::{decode_utf8, encode_utf8};

verus! {

/// One rewritten region: the bytes `start_a..pos_a` of the source text were
/// replaced by a token which ends (exclusively) at `pos_b` in the transformed
/// text.
#[derive(Clone, Copy, Debug, PartialEq, Eq, Structural)]
pub struct Breakpoint {
    /// Position just behind the replacement, in the transformed text.
    pub pos_b: u32,
    /// Position just behind the rewritten region, in the source text.
    pub pos_a: u32,
    /// Position at which the rewritten region starts, in the source text.
    pub start_a: u32,
}

/// Why a rewrite could not be recorded.
#[derive(Clone, Copy, Debug, PartialEq, Eq, Structural)]
pub enum RewriteError {
    /// The region ends in front of its start.
    Reversed,
    /// The region shares a byte with a region that was recorded before.
    Overlap,
    /// With the rewrite recorded, the breakpoint in front of the new one or
    /// the one behind it would no longer be strictly smaller, or strictly
    /// larger, in both coordinates.
    NotIncreasing,
    /// A position of the transformed text would not fit in 32 bits.
    PositionOverflow,
}

/// Transformed position of the breakpoint in front of index `i`, or zero.
pub open spec fn prev_b(m: Seq<Breakpoint>, i: int) -> int {
    if 0 < i <= m.len() {
        m[i - 1].pos_b as int
    } else {
        0
    }
}

/// Source position of the breakpoint in front of index `i`, or zero.
pub open spec fn prev_a(m: Seq<Breakpoint>, i: int) -> int {
    if 0 < i <= m.len() {
        m[i - 1].pos_a as int
    } else {
        0
    }
}

/// Length of the replacement token of the `i`-th rewrite.
pub open spec fn token_len(m: Seq<Breakpoint>, i: int) -> int {
    m[i].pos_b - prev_b(m, i) - (m[i].start_a - prev_a(m, i))
}

/// Whether the region of `p` and the bytes `start..end` have a byte in common.
pub open spec fn shares_a_byte(p: Breakpoint, start: int, end: int) -> bool {
    p.start_a < end && start < p.pos_a && p.start_a < p.pos_a && start < end
}

/// Whether the bytes `start..end` have a byte in common with a region of `m`.
pub open spec fn overlaps(m: Seq<Breakpoint>, start: int, end: int) -> bool {
    exists|i: int| 0 <= i < m.len() && shares_a_byte(#[trigger] m[i], start, end)
}

/// Both coordinates strictly increase from one breakpoint to the next, no
/// two regions have a byte in common, and no replacement token has a
/// negative length.
pub open spec fn well_formed(m: Seq<Breakpoint>) -> bool {
    &&& forall|i: int, j: int|
        0 <= i < j < m.len() ==> (#[trigger] m[i]).pos_a < (#[trigger] m[j]).pos_a
    &&& forall|i: int, j: int|
        0 <= i < j < m.len() ==> (#[trigger] m[i]).pos_b < (#[trigger] m[j]).pos_b
    &&& forall|i: int| 0 <= i < m.len() ==> (#[trigger] m[i]).start_a <= m[i].pos_a
    &&& forall|i: int, j: int|
        0 <= i < m.len() && 0 <= j < m.len() && i != j ==> !shares_a_byte(
            #[trigger] m[i],
            (#[trigger] m[j]).start_a as int,
            m[j].pos_a as int,
        )
    &&& forall|i: int| 0 <= i < m.len() ==> #[trigger] token_len(m, i) >= 0
}

/// Index of the first breakpoint whose source position lies behind `pos`,
/// or the number of breakpoints if there is none.
pub open spec fn first_behind_a(m: Seq<Breakpoint>, pos: int) -> int
    decreases m.len(),
{
    if m.len() == 0 || m[0].pos_a > pos {
        0
    } else {
        1 + first_behind_a(m.skip(1), pos)
    }
}

/// Index of the first breakpoint whose transformed position lies behind
/// `pos`, or the number of breakpoints if there is none.
pub open spec fn first_behind_b(m: Seq<Breakpoint>, pos: int) -> int
    decreases m.len(),
{
    if m.len() == 0 || m[0].pos_b > pos {
        0
    } else {
        1 + first_behind_b(m.skip(1), pos)
    }
}

/// The position in the source text that the transformed position `b`
/// stands for.
pub open spec fn resolve_spec(m: Seq<Breakpoint>, b: int) -> int {
    let ix = first_behind_b(m, b);
    prev_a(m, ix) + (b - prev_b(m, ix))
}

/// The position in the transformed text at which the source position `a`
/// ends up, for a position that lies in no rewritten region.
pub open spec fn shift_spec(m: Seq<Breakpoint>, a: int) -> int {
    let ix = first_behind_a(m, a);
    prev_b(m, ix) + (a - prev_a(m, ix))
}

/// Whether the position `a` lies in one of the rewritten regions.
pub open spec fn in_a_region(m: Seq<Breakpoint>, a: int) -> bool {
    exists|i: int| 0 <= i < m.len() && (#[trigger] m[i]).start_a <= a < m[i].pos_a
}

/// A breakpoint behind a new rewrite of `removed` bytes into `added` bytes.
pub open spec fn shifted(p: Breakpoint, removed: int, added: int) -> Breakpoint {
    Breakpoint { pos_b: (p.pos_b - removed + added) as u32, pos_a: p.pos_a, start_a: p.start_a }
}

/// The breakpoint that a rewrite of `start..end` into `len_b` bytes adds.
pub open spec fn new_breakpoint(m: Seq<Breakpoint>, start: int, end: int, len_b: int) -> Breakpoint {
    let ix = first_behind_a(m, start);
    Breakpoint {
        pos_b: (prev_b(m, ix) + (start - prev_a(m, ix)) + len_b) as u32,
        pos_a: end as u32,
        start_a: start as u32,
    }
}

/// The largest transformed position that the map has once the rewrite of
/// `start..end` into `len_b` bytes is recorded.
pub open spec fn last_b_after(m: Seq<Breakpoint>, start: int, end: int, len_b: int) -> int {
    let ix = first_behind_a(m, start);
    if ix < m.len() {
        m.last().pos_b - (end - start) + len_b
    } else {
        prev_b(m, ix) + (start - prev_a(m, ix)) + len_b
    }
}

/// Whether the breakpoint of a rewrite of `start..end` into `len_b` bytes
/// would lie strictly between its neighbours in both coordinates.
pub open spec fn stays_increasing(m: Seq<Breakpoint>, start: int, end: int, len_b: int) -> bool {
    let ix = first_behind_a(m, start);
    let new_b = prev_b(m, ix) + (start - prev_a(m, ix)) + len_b;
    &&& 0 < ix ==> prev_a(m, ix) < end && prev_b(m, ix) < new_b
    &&& ix < m.len() ==> end < m[ix].pos_a && new_b < m[ix].pos_b - (end - start) + len_b
}

/// What recording the rewrite of `start..end` into `len_b` bytes does to the
/// breakpoints `m`. An empty region, or an empty replacement, is recorded
/// like any other.
pub open spec fn update_spec(m: Seq<Breakpoint>, start: int, end: int, len_b: int) -> Result<
    Seq<Breakpoint>,
    RewriteError,
> {
    let ix = first_behind_a(m, start);
    if end < start {
        Err(RewriteError::Reversed)
    } else if overlaps(m, start, end) {
        Err(RewriteError::Overlap)
    } else if !stays_increasing(m, start, end, len_b) {
        Err(RewriteError::NotIncreasing)
    } else if last_b_after(m, start, end, len_b) > u32::MAX {
        Err(RewriteError::PositionOverflow)
    } else {
        Ok(
            m.take(ix).push(new_breakpoint(m, start, end, len_b)) + m.skip(ix).map_values(
                |p: Breakpoint| shifted(p, end - start, len_b),
            ),
        )
    }
}

/// `first_behind_a` counts the breakpoints in front of the first one behind
/// `pos`: all of them lie at or before `pos`.
pub proof fn lemma_first_behind_a(m: Seq<Breakpoint>, pos: int)
    ensures
        0 <= first_behind_a(m, pos) <= m.len(),
        forall|i: int| 0 <= i < first_behind_a(m, pos) ==> (#[trigger] m[i]).pos_a <= pos,
        first_behind_a(m, pos) < m.len() ==> m[first_behind_a(m, pos)].pos_a > pos,
    decreases m.len(),
{
    if m.len() > 0 && m[0].pos_a <= pos {
        let rest = m.skip(1);
        lemma_first_behind_a(rest, pos);
        let k = first_behind_a(rest, pos);
        assert forall|i: int| 0 <= i < 1 + k implies (#[trigger] m[i]).pos_a <= pos by {
            if i > 0 {
                assert(rest[i - 1] == m[i]);
            }
        }
    }
}

/// `first_behind_b` counts the breakpoints in front of the first one behind
/// `pos`: all of them lie at or before `pos`.
pub proof fn lemma_first_behind_b(m: Seq<Breakpoint>, pos: int)
    ensures
        0 <= first_behind_b(m, pos) <= m.len(),
        forall|i: int| 0 <= i < first_behind_b(m, pos) ==> (#[trigger] m[i]).pos_b <= pos,
        first_behind_b(m, pos) < m.len() ==> m[first_behind_b(m, pos)].pos_b > pos,
    decreases m.len(),
{
    if m.len() > 0 && m[0].pos_b <= pos {
        let rest = m.skip(1);
        lemma_first_behind_b(rest, pos);
        let k = first_behind_b(rest, pos);
        assert forall|i: int| 0 <= i < 1 + k implies (#[trigger] m[i]).pos_b <= pos by {
            if i > 0 {
                assert(rest[i - 1] == m[i]);
            }
        }
    }
}

/// An index with everything in front at or before `pos`, and a breakpoint
/// behind `pos` at it (or none left), is the one `first_behind_a` names.
pub proof fn lemma_first_behind_a_is(m: Seq<Breakpoint>, pos: int, ix: int)
    requires
        0 <= ix <= m.len(),
        forall|i: int| 0 <= i < ix ==> (#[trigger] m[i]).pos_a <= pos,
        ix < m.len() ==> m[ix].pos_a > pos,
    ensures
        first_behind_a(m, pos) == ix,
    decreases m.len(),
{
    if m.len() > 0 && m[0].pos_a <= pos {
        let rest = m.skip(1);
        lemma_first_behind_a_is(rest, pos, ix - 1);
    }
}

/// An index with everything in front at or before `pos`, and a breakpoint
/// behind `pos` at it (or none left), is the one `first_behind_b` names.
pub proof fn lemma_first_behind_b_is(m: Seq<Breakpoint>, pos: int, ix: int)
    requires
        0 <= ix <= m.len(),
        forall|i: int| 0 <= i < ix ==> (#[trigger] m[i]).pos_b <= pos,
        ix < m.len() ==> m[ix].pos_b > pos,
    ensures
        first_behind_b(m, pos) == ix,
    decreases m.len(),
{
    if m.len() > 0 && m[0].pos_b <= pos {
        let rest = m.skip(1);
        lemma_first_behind_b_is(rest, pos, ix - 1);
    }
}

/// Mapping a position back never moves it in front of the text: the
/// result of `resolve_spec` is not negative for a position that is not.
pub proof fn lemma_resolve_nonnegative(m: Seq<Breakpoint>, b: int)
    requires
        0 <= b,
    ensures
        0 <= resolve_spec(m, b),
{
    lemma_first_behind_b(m, b);
}

/// With no rewrite recorded, every position stands for itself.
pub proof fn lemma_resolve_empty(b: int)
    ensures
        resolve_spec(Seq::<Breakpoint>::empty(), b) == b,
{
}

/// A position of the source text that lies in no rewritten region is found
/// again: moving it into the transformed text and mapping it back gives
/// the position itself.
pub proof fn lemma_resolve_inverts_shift(m: Seq<Breakpoint>, a: int)
    requires
        well_formed(m),
        0 <= a,
        !in_a_region(m, a),
    ensures
        resolve_spec(m, shift_spec(m, a)) == a,
{
    lemma_first_behind_a(m, a);
    let ix = first_behind_a(m, a);
    let b = shift_spec(m, a);
    if ix < m.len() {
        assert(token_len(m, ix) >= 0);
    }
    lemma_first_behind_b_is(m, b, ix);
}

/// Breakpoints that map positions of a transformed text back to the
/// source text.
#[derive(Debug)]
pub struct ByteIndexMap {
    mapping: Vec<Breakpoint>,
}

impl View for ByteIndexMap {
    type V = Seq<Breakpoint>;

    closed spec fn view(&self) -> Seq<Breakpoint> {
        self.mapping@
    }
}

impl ByteIndexMap {
    #[verifier::type_invariant]
    spec fn inv(&self) -> bool {
        well_formed(self.mapping@)
    }

    /// A map for a text in which nothing was rewritten.
    pub fn new() -> (map: Self)
        ensures
            map@ == Seq::<Breakpoint>::empty(),
            well_formed(map@),
    {
        ByteIndexMap { mapping: Vec::new() }
    }

    /// The breakpoints, in increasing order.
    pub fn breakpoints(&self) -> (out: Vec<Breakpoint>)
        ensures
            out@ == self@,
            well_formed(self@),
    {
        proof {
            use_type_invariant(self);
        }
        self.mapping.clone()
    }

    /// Whether both coordinates increase along the breakpoints, which they
    /// always do.
    pub fn consistency_check(&self) -> (ok: bool)
        ensures
            ok,
            ok == (forall|i: int, j: int|
                0 <= i < j < self@.len() ==> (#[trigger] self@[i]).pos_b < (
                #[trigger] self@[j]).pos_b && self@[i].pos_a < self@[j].pos_a),
    {
        proof {
            use_type_invariant(self);
        }
        let mut prev_b: u32 = 0;
        let mut prev_a: u32 = 0;
        let mut i: usize = 0;
        while i < self.mapping.len()
            invariant
                i <= self.mapping.len(),
                well_formed(self.mapping@),
                i > 0 ==> prev_b == self.mapping@[i - 1].pos_b && prev_a == self.mapping@[i
                    - 1].pos_a,
            decreases self.mapping.len() - i,
        {
            let p = self.mapping[i];
            if i > 0 && (p.pos_b <= prev_b || p.pos_a <= prev_a) {
                return false;
            }
            prev_b = p.pos_b;
            prev_a = p.pos_a;
            i += 1;
        }
        true
    }

    /// Records that the bytes `start..end` of the source text were replaced
    /// by `len_b` bytes. The region may be empty, and so may the
    /// replacement. Where the rewrite cannot be recorded the map stays as it
    /// is and the error says why.
    pub fn update(&mut self, start: u32, end: u32, len_b: u32) -> (r: Result<(), RewriteError>)
        ensures
            match update_spec(old(self)@, start as int, end as int, len_b as int) {
                Ok(m) => r is Ok && final(self)@ == m,
                Err(e) => r == Err::<(), RewriteError>(e) && final(self)@ == old(self)@,
            },
            well_formed(final(self)@),
    {
        proof {
            use_type_invariant(&*self);
        }
        let ghost m = self.mapping@;
        if end < start {
            return Err(RewriteError::Reversed);
        }
        let n: usize = self.mapping.len();
        let mut k: usize = 0;
        while k < n
            invariant
                k <= n,
                n == self.mapping.len(),
                self.mapping@ == m,
                well_formed(m),
                forall|i: int|
                    0 <= i < k ==> !shares_a_byte(#[trigger] m[i], start as int, end as int),
            decreases n - k,
        {
            let p = self.mapping[k];
            if p.start_a < end && start < p.pos_a && p.start_a < p.pos_a && start < end {
                return Err(RewriteError::Overlap);
            }
            k += 1;
        }
        let mut ix: usize = 0;
        while ix < n && self.mapping[ix].pos_a <= start
            invariant
                ix <= n,
                n == self.mapping.len(),
                self.mapping@ == m,
                well_formed(m),
                !overlaps(m, start as int, end as int),
                forall|i: int| 0 <= i < ix ==> (#[trigger] m[i]).pos_a <= start,
            decreases n - ix,
        {
            ix += 1;
        }
        proof {
            lemma_first_behind_a_is(m, start as int, ix as int);
        }
        let before_b: u32 = if ix > 0 {
            self.mapping[ix - 1].pos_b
        } else {
            0
        };
        let before_a: u32 = if ix > 0 {
            self.mapping[ix - 1].pos_a
        } else {
            0
        };
        let removed: u32 = end - start;
        let new_b: u64 = before_b as u64 + (start - before_a) as u64 + len_b as u64;
        if ix > 0 && (before_a >= end || before_b as u64 >= new_b) {
            return Err(RewriteError::NotIncreasing);
        }
        if ix < n && (end >= self.mapping[ix].pos_a || new_b + removed as u64
            >= self.mapping[ix].pos_b as u64 + len_b as u64) {
            return Err(RewriteError::NotIncreasing);
        }
        let last_b: u64 = if ix < n {
            self.mapping[n - 1].pos_b as u64 - removed as u64 + len_b as u64
        } else {
            new_b
        };
        if last_b > u32::MAX as u64 {
            return Err(RewriteError::PositionOverflow);
        }
        let added = Breakpoint { pos_b: new_b as u32, pos_a: end, start_a: start };
        let ghost want = update_spec(m, start as int, end as int, len_b as int)->Ok_0;
        let mut out: Vec<Breakpoint> = Vec::new();
        let mut i: usize = 0;
        while i < ix
            invariant
                i <= ix <= n,
                n == self.mapping.len(),
                self.mapping@ == m,
                out@ == m.take(i as int),
            decreases ix - i,
        {
            out.push(self.mapping[i]);
            i += 1;
        }
        out.push(added);
        while i < n
            invariant
                ix <= i <= n,
                n == self.mapping.len(),
                self.mapping@ == m,
                well_formed(m),
                ix < n ==> m[ix as int].pos_b >= removed,
                ix < n ==> m[n - 1].pos_b - removed + len_b <= u32::MAX,
                removed == end - start,
                out@.len() == i + 1,
                forall|k: int| 0 <= k < ix ==> out@[k] == m[k],
                out@[ix as int] == added,
                forall|k: int|
                    ix <= k < i ==> out@[k + 1] == shifted(
                        #[trigger] m[k],
                        removed as int,
                        len_b as int,
                    ),
            decreases n - i,
        {
            let p = self.mapping[i];
            let b: u64 = p.pos_b as u64 - removed as u64 + len_b as u64;
            out.push(Breakpoint { pos_b: b as u32, pos_a: p.pos_a, start_a: p.start_a });
            i += 1;
        }
        proof {
            assert(out@ =~= want);
            lemma_update_well_formed(m, start as int, end as int, len_b as int);
        }
        self.mapping = out;
        Ok(())
    }

    /// The position in the source text that the position `input_b` of the
    /// transformed text stands for, if it fits in 32 bits.
    pub fn checked_resolve(&self, input_b: u32) -> (a: Option<u32>)
        ensures
            a == if resolve_spec(self@, input_b as int) <= u32::MAX {
                Some(resolve_spec(self@, input_b as int) as u32)
            } else {
                None
            },
    {
        let n: usize = self.mapping.len();
        let mut ix: usize = 0;
        while ix < n && self.mapping[ix].pos_b <= input_b
            invariant
                ix <= n,
                n == self.mapping.len(),
                forall|i: int| 0 <= i < ix ==> (#[trigger] self.mapping@[i]).pos_b <= input_b,
            decreases n - ix,
        {
            ix += 1;
        }
        proof {
            lemma_first_behind_b_is(self.mapping@, input_b as int, ix as int);
        }
        let before_b: u32 = if ix > 0 {
            self.mapping[ix - 1].pos_b
        } else {
            0
        };
        let before_a: u32 = if ix > 0 {
            self.mapping[ix - 1].pos_a
        } else {
            0
        };
        let a: u64 = before_a as u64 + (input_b - before_b) as u64;
        if a > u32::MAX as u64 {
            None
        } else {
            Some(a as u32)
        }
    }

    /// The position in the source text that the position `input_b` of the
    /// transformed text stands for.
    pub fn resolve(&self, input_b: u32) -> (a: u32)
        requires
            resolve_spec(self@, input_b as int) <= u32::MAX,
        ensures
            a == resolve_spec(self@, input_b as int),
    {
        proof {
            lemma_resolve_nonnegative(self@, input_b as int);
        }
        match self.checked_resolve(input_b) {
            Some(a) => a,
            None => 0,
        }
    }
}

/// The breakpoints after a rewrite was recorded, one by one: those in front
/// stay, the new one follows, those behind move by the change in length.
pub proof fn lemma_update_elements(m: Seq<Breakpoint>, start: int, end: int, len_b: int)
    requires
        update_spec(m, start, end, len_b) is Ok,
    ensures
        ({
            let ix = first_behind_a(m, start);
            let out = update_spec(m, start, end, len_b)->Ok_0;
            &&& 0 <= ix <= m.len()
            &&& out.len() == m.len() + 1
            &&& forall|k: int| 0 <= k < ix ==> #[trigger] out[k] == m[k]
            &&& out[ix] == new_breakpoint(m, start, end, len_b)
            &&& forall|k: int|
                ix < k <= m.len() ==> #[trigger] out[k] == shifted(m[k - 1], end - start, len_b)
        }),
{
    lemma_first_behind_a(m, start);
}

/// Recording a rewrite keeps the breakpoints well formed.
pub proof fn lemma_update_well_formed(m: Seq<Breakpoint>, start: int, end: int, len_b: int)
    requires
        well_formed(m),
        0 <= start,
        0 <= len_b,
        end <= u32::MAX,
        update_spec(m, start, end, len_b) is Ok,
    ensures
        well_formed(update_spec(m, start, end, len_b)->Ok_0),
{
    lemma_first_behind_a(m, start);
    lemma_update_elements(m, start, end, len_b);
    lemma_update_positions(m, start, end, len_b);
    lemma_update_tokens(m, start, end, len_b);
}

/// Where a rewrite is recorded, the breakpoints behind the new one stay
/// behind it, and within 32 bits, once they are moved.
proof fn lemma_update_positions(m: Seq<Breakpoint>, start: int, end: int, len_b: int)
    requires
        well_formed(m),
        0 <= start,
        0 <= len_b,
        end <= u32::MAX,
        update_spec(m, start, end, len_b) is Ok,
    ensures
        ({
            let ix = first_behind_a(m, start);
            let new_b = prev_b(m, ix) + (start - prev_a(m, ix)) + len_b;
            &&& 0 <= ix <= m.len()
            &&& prev_a(m, ix) <= start
            &&& 0 <= new_b <= u32::MAX
            &&& forall|k: int|
                ix <= k < m.len() ==> new_b < (#[trigger] m[k]).pos_b - (end - start) + len_b
                    <= u32::MAX
            &&& forall|k: int| ix <= k < m.len() ==> end < (#[trigger] m[k]).pos_a
            &&& forall|i: int|
                0 <= i < ix ==> (#[trigger] m[i]).pos_a <= prev_a(m, ix) && m[i].pos_b <= prev_b(
                    m,
                    ix,
                )
        }),
{
    lemma_first_behind_a(m, start);
    let ix = first_behind_a(m, start);
    let new_b = prev_b(m, ix) + (start - prev_a(m, ix)) + len_b;
}

/// Recording a rewrite leaves every token as long as it was, and the new
/// token has the length that was given.
proof fn lemma_update_tokens(m: Seq<Breakpoint>, start: int, end: int, len_b: int)
    requires
        well_formed(m),
        0 <= start,
        0 <= len_b,
        end <= u32::MAX,
        update_spec(m, start, end, len_b) is Ok,
    ensures
        ({
            let ix = first_behind_a(m, start);
            let out = update_spec(m, start, end, len_b)->Ok_0;
            &&& forall|i: int| 0 <= i < ix ==> #[trigger] token_len(out, i) == token_len(m, i)
            &&& token_len(out, ix) == len_b
            &&& forall|i: int| ix < i <= m.len() ==> #[trigger] token_len(out, i) == token_len(m, i - 1)
        }),
{
    lemma_update_elements(m, start, end, len_b);
    lemma_update_positions(m, start, end, len_b);
}

/// Recording a rewrite moves what stands behind it by the change in length,
/// and leaves what stands in front of it where it is: a position of the
/// source text that lies in no rewritten region, before or after, ends up
/// `len_b - (end - start)` bytes further on if it lies behind the new region,
/// and at the same place if it lies in front.
pub proof fn lemma_update_shifts_what_follows(
    m: Seq<Breakpoint>,
    start: int,
    end: int,
    len_b: int,
    a: int,
)
    requires
        well_formed(m),
        0 <= start,
        0 <= len_b,
        end <= u32::MAX,
        update_spec(m, start, end, len_b) is Ok,
        0 <= a,
        !(start <= a < end),
        !in_a_region(m, a),
    ensures
        shift_spec(update_spec(m, start, end, len_b)->Ok_0, a) == if a < start {
            shift_spec(m, a)
        } else {
            shift_spec(m, a) + len_b - (end - start)
        },
{
    lemma_first_behind_a(m, start);
    lemma_first_behind_a(m, a);
    let at = first_behind_a(m, a);
    let out = update_spec(m, start, end, len_b)->Ok_0;
    lemma_update_elements(m, start, end, len_b);
    lemma_update_positions(m, start, end, len_b);
    if a < start {
        // Nothing in front of the position has changed.
        lemma_first_behind_a_is(out, a, at);
    } else {
        // The new region lies in front of the position, with all in front of it.
        lemma_first_behind_a_is(out, a, at + 1);
    }
}

/// The first rewrite that a map records is never refused, empty or not, as
/// long as its token ends within 32 bits. Behind it, a position of the
/// transformed text up to the end of the token stands for itself, and a
/// position behind the token for the one as far behind the region.
pub proof fn lemma_first_rewrite(start: int, end: int, len_b: int, p: int)
    requires
        0 <= start <= end <= u32::MAX,
        0 <= len_b,
        start + len_b <= u32::MAX,
    ensures
        update_spec(Seq::<Breakpoint>::empty(), start, end, len_b) is Ok,
        resolve_spec(update_spec(Seq::<Breakpoint>::empty(), start, end, len_b)->Ok_0, p) == if p
            < start + len_b {
            p
        } else {
            end + (p - start - len_b)
        },
{
    let m = Seq::<Breakpoint>::empty();
    lemma_update_elements(m, start, end, len_b);
    let out = update_spec(m, start, end, len_b)->Ok_0;
    if p < start + len_b {
        lemma_first_behind_b_is(out, p, 0);
    } else {
        lemma_first_behind_b_is(out, p, 1);
    }
}

/// Everything between a pair of `$$`, line breaks included.
pub const DISPLAY_MATH: &'static str = r"\$\$[^\$]*\$\$";

/// Everything between a pair of `$` on one line.
pub const INLINE_MATH: &'static str = r"\$[^\$\n\r]*\$";

/// Everything between `\(` and `\)` on one line.
pub const PARENTHESIS_MATH: &'static str = r"\\\([^\n\r]*\\\)";

/// Everything between `\[` and `\]`, line breaks included.
pub const BRACKET_MATH: &'static str = r"\\\[(.|\r\n|\r|\n)*\\\]";

/// Token that stands for a `$$` region.
pub const DISPLAY_MATH_TOKEN: &'static str = "LATEX_DOUBLE_DOLLAR_SUBSTITUTED";

/// Token that stands for a `$` region.
pub const INLINE_MATH_TOKEN: &'static str = "LATEX_SINGLE_DOLLAR_SUBSTITUTED";

/// Token that stands for a `\(` region.
pub const PARENTHESIS_MATH_TOKEN: &'static str = "LATEX_ESCAPED_PARENTHESIS_SUBSTITUTED";

/// Token that stands for a `\[` region.
pub const BRACKET_MATH_TOKEN: &'static str = "LATEX_ESCAPED_SQUARE_BRACKET_SUBSTITUTED";

/// Why a text could not be freed of its mathematical notation.
#[derive(Clone, Copy, Debug, PartialEq, Eq, Structural)]
pub enum FilterError {
    /// A pattern is no regular expression.
    InvalidPattern,
    /// A region that a pattern matched could not be recorded.
    Rewrite(RewriteError),
}

/// The rewrite that a match at the bytes `span` of the transformed text
/// stands for: its region in the source text, and the token's length.
pub open spec fn rewrite_for(m: Seq<Breakpoint>, span: (usize, usize), token_len: int) -> Result<
    (int, int, int),
    RewriteError,
> {
    let start = resolve_spec(m, span.0 as int);
    if span.1 < span.0 {
        Err(RewriteError::Reversed)
    } else if span.1 > u32::MAX || start + (span.1 - span.0) > u32::MAX || token_len > u32::MAX {
        Err(RewriteError::PositionOverflow)
    } else {
        Ok((start, start + (span.1 - span.0), token_len))
    }
}

/// The rewrites that the matches `spans` stand for, or the first error.
pub open spec fn rewrites_for(m: Seq<Breakpoint>, spans: Seq<(usize, usize)>, token_len: int)
    -> Result<Seq<(int, int, int)>, RewriteError>
    decreases spans.len(),
{
    if spans.len() == 0 {
        Ok(Seq::empty())
    } else {
        match rewrites_for(m, spans.drop_last(), token_len) {
            Err(e) => Err(e),
            Ok(front) => match rewrite_for(m, spans.last(), token_len) {
                Err(e) => Err(e),
                Ok(rw) => Ok(front.push(rw)),
            },
        }
    }
}

/// The breakpoints once the rewrites `rws` are recorded one after the
/// other, or the first error.
pub open spec fn record_all(m: Seq<Breakpoint>, rws: Seq<(int, int, int)>) -> Result<
    Seq<Breakpoint>,
    RewriteError,
>
    decreases rws.len(),
{
    if rws.len() == 0 {
        Ok(m)
    } else {
        match record_all(m, rws.drop_last()) {
            Err(e) => Err(e),
            Ok(front) => update_spec(front, rws.last().0, rws.last().1, rws.last().2),
        }
    }
}

/// The breakpoints once the matches `spans`, found in the transformed text,
/// are recorded as rewrites into tokens of `token_len` bytes; or the first
/// error.
pub open spec fn record_matches_spec(m: Seq<Breakpoint>, spans: Seq<(usize, usize)>, token_len: int)
    -> Result<Seq<Breakpoint>, RewriteError> {
    match rewrites_for(m, spans, token_len) {
        Err(e) => Err(e),
        Ok(rws) => record_all(m, rws),
    }
}

/// The text in which every match of `pattern` is replaced by `token`: the
/// bytes of each match give way to those of the token. A token with a `$`
/// may refer to parts of the match, and the text is then what the regular
/// expression makes of it.
pub open spec fn replaced_text(pattern: Seq<char>, text: Seq<char>, token: Seq<char>) -> Seq<char> {
    if token.contains('$') {
        regex_replaced(pattern, text, token)
    } else {
        decode_utf8(spliced(encode_utf8(text), regex_spans(pattern, text), encode_utf8(token)))
    }
}

/// One pass over the text: every match of `pattern` is replaced by `token`
/// and recorded in the breakpoints.
pub open spec fn pass_spec(
    text: Seq<char>,
    m: Seq<Breakpoint>,
    pattern: Seq<char>,
    token: Seq<char>,
) -> Result<(Seq<char>, Seq<Breakpoint>), FilterError> {
    if !regex_compiles(pattern) {
        Err(FilterError::InvalidPattern)
    } else {
        match record_matches_spec(m, regex_spans(pattern, text), encode_utf8(token).len() as int) {
            Err(e) => Err(FilterError::Rewrite(e)),
            Ok(after) => Ok((replaced_text(pattern, text, token), after)),
        }
    }
}

/// A pass over what the pass before it left, if that one succeeded.
pub open spec fn then_pass(
    before: Result<(Seq<char>, Seq<Breakpoint>), FilterError>,
    pattern: Seq<char>,
    token: Seq<char>,
) -> Result<(Seq<char>, Seq<Breakpoint>), FilterError> {
    match before {
        Err(e) => Err(e),
        Ok((text, m)) => pass_spec(text, m, pattern, token),
    }
}

/// The text without its mathematical notation, and the breakpoints that
/// lead back into `src`: the four passes in their fixed order.
pub open spec fn filter_spec(src: Seq<char>) -> Result<(Seq<char>, Seq<Breakpoint>), FilterError> {
    then_pass(
        then_pass(
            then_pass(
                pass_spec(src, Seq::empty(), DISPLAY_MATH@, DISPLAY_MATH_TOKEN@),
                INLINE_MATH@,
                INLINE_MATH_TOKEN@,
            ),
            PARENTHESIS_MATH@,
            PARENTHESIS_MATH_TOKEN@,
        ),
        BRACKET_MATH@,
        BRACKET_MATH_TOKEN@,
    )
}

/// Whether the four patterns compile and none of them matches in `src`.
pub open spec fn free_of_latex(src: Seq<char>) -> bool {
    &&& regex_compiles(DISPLAY_MATH@) && regex_spans(DISPLAY_MATH@, src).len() == 0
    &&& regex_compiles(INLINE_MATH@) && regex_spans(INLINE_MATH@, src).len() == 0
    &&& regex_compiles(PARENTHESIS_MATH@) && regex_spans(PARENTHESIS_MATH@, src).len() == 0
    &&& regex_compiles(BRACKET_MATH@) && regex_spans(BRACKET_MATH@, src).len() == 0
}

/// The rewrites as triples of integers.
pub open spec fn as_ints(rws: Seq<(u32, u32, u32)>) -> Seq<(int, int, int)> {
    rws.map_values(|t: (u32, u32, u32)| (t.0 as int, t.1 as int, t.2 as int))
}

/// Records the matches `spans`, found in the text that `map` leads back
/// from, as rewrites into tokens of `token_len` bytes. The region of every
/// match is worked out before the first of them is recorded.
#[verifier::loop_isolation(false)]
pub fn record_matches(map: ByteIndexMap, spans: &Vec<(usize, usize)>, token_len: usize) -> (r:
    Result<ByteIndexMap, RewriteError>)
    ensures
        match record_matches_spec(map@, spans@, token_len as int) {
            Ok(m) => r matches Ok(after) && after@ == m,
            Err(e) => r matches Err(x) && x == e,
        },
{
    let mut map = map;
    let ghost m0 = map@;
    let ghost tl = token_len as int;
    let mut rewrites: Vec<(u32, u32, u32)> = Vec::new();
    let mut i: usize = 0;
    while i < spans.len()
        invariant
            i <= spans.len(),
            map@ == m0,
            rewrites_for(m0, spans@.take(i as int), tl) is Ok,
            rewrites_for(m0, spans@.take(i as int), tl)->Ok_0 == as_ints(rewrites@),
        decreases spans.len() - i,
    {
        let (s, e) = spans[i];
        let ghost front = spans@.take(i as int);
        let ghost next = spans@.take(i + 1);
        proof {
            assert(next.drop_last() =~= front);
            lemma_resolve_nonnegative(m0, s as int);
        }
        if e < s {
            proof {
                lemma_rewrites_error_stays(m0, spans@, tl, i + 1);
            }
            return Err(RewriteError::Reversed);
        }
        if e > u32::MAX as usize || token_len > u32::MAX as usize {
            proof {
                lemma_rewrites_error_stays(m0, spans@, tl, i + 1);
            }
            return Err(RewriteError::PositionOverflow);
        }
        let start: u32 = match map.checked_resolve(s as u32) {
            Some(a) => a,
            None => {
                proof {
                    lemma_rewrites_error_stays(m0, spans@, tl, i + 1);
                }
                return Err(RewriteError::PositionOverflow);
            },
        };
        let end: u64 = start as u64 + (e - s) as u64;
        if end > u32::MAX as u64 {
            proof {
                lemma_rewrites_error_stays(m0, spans@, tl, i + 1);
            }
            return Err(RewriteError::PositionOverflow);
        }
        rewrites.push((start, end as u32, token_len as u32));
        i += 1;
    }
    proof {
        assert(spans@.take(spans@.len() as int) =~= spans@);
    }
    let ghost rws = as_ints(rewrites@);
    let mut k: usize = 0;
    while k < rewrites.len()
        invariant
            k <= rewrites.len(),
            rws == as_ints(rewrites@),
            record_all(m0, rws.take(k as int)) is Ok,
            record_all(m0, rws.take(k as int))->Ok_0 == map@,
        decreases rewrites.len() - k,
    {
        let (start, end, len_b) = rewrites[k];
        proof {
            assert(rws.take(k + 1).drop_last() =~= rws.take(k as int));
        }
        match map.update(start, end, len_b) {
            Ok(()) => {},
            Err(e) => {
                proof {
                    lemma_record_error_stays(m0, rws, k + 1);
                }
                return Err(e);
            },
        }
        k += 1;
    }
    proof {
        assert(rws.take(rws.len() as int) =~= rws);
    }
    Ok(map)
}

/// Replaces every match of `pattern` in `text` by `token` and records the
/// rewritten regions in `map`.
pub fn apply_pattern(text: String, map: ByteIndexMap, pattern: &str, token: &str) -> (r: Result<
    (String, ByteIndexMap),
    FilterError,
>)
    ensures
        match pass_spec(text@, map@, pattern@, token@) {
            Ok((t, m)) => r matches Ok(p) && p.0@ == t && p.1@ == m,
            Err(e) => r matches Err(x) && x == e,
        },
        regex_compiles(pattern@) ==> spans_in_order(
            regex_spans(pattern@, text@),
            encode_utf8(text@).len() as int,
        ),
        !token@.contains('$') ==> (r matches Ok(p) ==> encode_utf8(p.0@) == spliced(
            encode_utf8(text@),
            regex_spans(pattern@, text@),
            encode_utf8(token@),
        )),
{
    let re = match HashedRegex::new(pattern) {
        Ok(re) => re,
        Err(_) => {
            return Err(FilterError::InvalidPattern);
        },
    };
    let spans = re.match_spans(text.as_str());
    match record_matches(map, &spans, token.as_bytes().len()) {
        Err(e) => Err(FilterError::Rewrite(e)),
        Ok(map) => {
            let out = re.replace_all(text.as_str(), token);
            proof {
                vstd::utf8::encode_utf8_decode_utf8(out@);
            }
            Ok((out, map))
        },
    }
}

/// An error among the first `n` matches is the error of them all.
pub proof fn lemma_rewrites_error_stays(
    m: Seq<Breakpoint>,
    spans: Seq<(usize, usize)>,
    token_len: int,
    n: int,
)
    requires
        0 <= n <= spans.len(),
        rewrites_for(m, spans.take(n), token_len) is Err,
    ensures
        rewrites_for(m, spans, token_len) == rewrites_for(m, spans.take(n), token_len),
    decreases spans.len() - n,
{
    if n == spans.len() {
        assert(spans.take(n) =~= spans);
    } else {
        assert(spans.take(n + 1).drop_last() =~= spans.take(n));
        lemma_rewrites_error_stays(m, spans, token_len, n + 1);
    }
}

/// An error while the first `n` rewrites are recorded is the error of them
/// all.
pub proof fn lemma_record_error_stays(m: Seq<Breakpoint>, rws: Seq<(int, int, int)>, n: int)
    requires
        0 <= n <= rws.len(),
        record_all(m, rws.take(n)) is Err,
    ensures
        record_all(m, rws) == record_all(m, rws.take(n)),
    decreases rws.len() - n,
{
    if n == rws.len() {
        assert(rws.take(n) =~= rws);
    } else {
        assert(rws.take(n + 1).drop_last() =~= rws.take(n));
        lemma_record_error_stays(m, rws, n + 1);
    }
}

/// The rewrites that matches stand for lie within the text and reach no
/// further than 32 bits.
pub proof fn lemma_rewrites_in_range(
    m: Seq<Breakpoint>,
    spans: Seq<(usize, usize)>,
    token_len: int,
)
    requires
        0 <= token_len,
        rewrites_for(m, spans, token_len) is Ok,
    ensures
        forall|i: int|
            0 <= i < rewrites_for(m, spans, token_len)->Ok_0.len() ==> 0 <= (
            #[trigger] rewrites_for(m, spans, token_len)->Ok_0[i]).0 && rewrites_for(
                m,
                spans,
                token_len,
            )->Ok_0[i].1 <= u32::MAX && rewrites_for(m, spans, token_len)->Ok_0[i].2 == token_len,
    decreases spans.len(),
{
    if spans.len() > 0 {
        lemma_rewrites_in_range(m, spans.drop_last(), token_len);
        lemma_resolve_nonnegative(m, spans.last().0 as int);
    }
}

/// Recording rewrites one after the other keeps the breakpoints well
/// formed.
pub proof fn lemma_record_all_well_formed(m: Seq<Breakpoint>, rws: Seq<(int, int, int)>)
    requires
        well_formed(m),
        forall|i: int|
            0 <= i < rws.len() ==> 0 <= (#[trigger] rws[i]).0 && rws[i].1 <= u32::MAX && 0
                <= rws[i].2,
        record_all(m, rws) is Ok,
    ensures
        well_formed(record_all(m, rws)->Ok_0),
    decreases rws.len(),
{
    if rws.len() > 0 {
        let front = rws.drop_last();
        lemma_record_all_well_formed(m, front);
        lemma_update_well_formed(
            record_all(m, front)->Ok_0,
            rws.last().0,
            rws.last().1,
            rws.last().2,
        );
    }
}

/// Whether the position `a` lies in the region of one of the rewrites.
pub open spec fn in_a_rewrite(rws: Seq<(int, int, int)>, a: int) -> bool {
    exists|i: int| 0 <= i < rws.len() && (#[trigger] rws[i]).0 <= a < rws[i].1
}

/// By how much the rewrites in front of the position `a` change the length
/// of the text.
pub open spec fn moved_by(rws: Seq<(int, int, int)>, a: int) -> int
    decreases rws.len(),
{
    if rws.len() == 0 {
        0
    } else if rws.last().1 <= a {
        moved_by(rws.drop_last(), a) + rws.last().2 - (rws.last().1 - rws.last().0)
    } else {
        moved_by(rws.drop_last(), a)
    }
}

/// The regions after a rewrite was recorded are the regions that were
/// there and the new one.
pub proof fn lemma_update_regions(m: Seq<Breakpoint>, start: int, end: int, len_b: int, a: int)
    requires
        0 <= start,
        end <= u32::MAX,
        update_spec(m, start, end, len_b) is Ok,
    ensures
        in_a_region(update_spec(m, start, end, len_b)->Ok_0, a) <==> in_a_region(m, a) || start
            <= a < end,
{
    lemma_update_elements(m, start, end, len_b);
    let ix = first_behind_a(m, start);
    let out = update_spec(m, start, end, len_b)->Ok_0;
    if in_a_region(out, a) {
        let i = choose|i: int| 0 <= i < out.len() && (#[trigger] out[i]).start_a <= a < out[i].pos_a;
    }
    if in_a_region(m, a) {
        let i = choose|i: int| 0 <= i < m.len() && (#[trigger] m[i]).start_a <= a < m[i].pos_a;
        if i < ix {
            assert(out[i] == m[i]);
        } else {
            assert(out[i + 1].start_a <= a < out[i + 1].pos_a);
        }
    }
}

/// Once rewrites are recorded, a position of the source text that lies in
/// no rewritten region, old or new, has moved by the change in length of
/// the new regions in front of it.
pub proof fn lemma_record_all_shifts(m: Seq<Breakpoint>, rws: Seq<(int, int, int)>, a: int)
    requires
        well_formed(m),
        forall|i: int|
            0 <= i < rws.len() ==> 0 <= (#[trigger] rws[i]).0 && rws[i].1 <= u32::MAX && 0
                <= rws[i].2,
        record_all(m, rws) is Ok,
        0 <= a,
        !in_a_region(m, a),
        !in_a_rewrite(rws, a),
    ensures
        !in_a_region(record_all(m, rws)->Ok_0, a),
        shift_spec(record_all(m, rws)->Ok_0, a) == shift_spec(m, a) + moved_by(rws, a),
    decreases rws.len(),
{
    if rws.len() > 0 {
        let front = rws.drop_last();
        let last = rws.last();
        lemma_record_all_shifts(m, front, a);
        lemma_record_all_well_formed(m, front);
        let before = record_all(m, front)->Ok_0;
        lemma_update_shifts_what_follows(before, last.0, last.1, last.2, a);
        lemma_update_regions(before, last.0, last.1, last.2, a);
    }
}

/// A byte of the source text that no rewrite has touched is found again:
/// the place it has in the text after the rewrites leads back to it.
pub proof fn lemma_positions_are_found_again(m: Seq<Breakpoint>, rws: Seq<(int, int, int)>, a: int)
    requires
        well_formed(m),
        forall|i: int|
            0 <= i < rws.len() ==> 0 <= (#[trigger] rws[i]).0 && rws[i].1 <= u32::MAX && 0
                <= rws[i].2,
        record_all(m, rws) is Ok,
        0 <= a,
        !in_a_region(m, a),
        !in_a_rewrite(rws, a),
    ensures
        resolve_spec(record_all(m, rws)->Ok_0, shift_spec(m, a) + moved_by(rws, a)) == a,
{
    lemma_record_all_shifts(m, rws, a);
    lemma_record_all_well_formed(m, rws);
    lemma_resolve_inverts_shift(record_all(m, rws)->Ok_0, a);
}

/// Where the token of the `i`-th rewrite starts in the transformed text.
pub open spec fn token_start(m: Seq<Breakpoint>, i: int) -> int {
    m[i].pos_b - token_len(m, i)
}

/// Whether the bytes `start..end` of the transformed text touch no token.
pub open spec fn avoids_tokens(m: Seq<Breakpoint>, start: int, end: int) -> bool {
    forall|i: int|
        0 <= i < m.len() ==> end <= #[trigger] token_start(m, i) || (#[trigger] m[i]).pos_b
            <= start
}

/// Whether no region and no replacement token is empty. The regions then
/// come one behind the other.
pub open spec fn without_empty(m: Seq<Breakpoint>) -> bool {
    &&& well_formed(m)
    &&& forall|i: int| 0 <= i < m.len() ==> (#[trigger] m[i]).start_a < m[i].pos_a
    &&& forall|i: int| 0 <= i < m.len() ==> #[trigger] token_len(m, i) > 0
}

/// Whether every rewritten region ends at or before `start`, or starts at
/// or behind `end`.
pub open spec fn clear_of(m: Seq<Breakpoint>, start: int, end: int) -> bool {
    forall|i: int| 0 <= i < m.len() ==> (#[trigger] m[i]).pos_a <= start || end <= m[i].start_a
}

/// Whether the rewrites are not empty, and each ends at or before the start
/// of the next.
pub open spec fn in_sequence(rws: Seq<(int, int, int)>) -> bool {
    &&& forall|i: int| 0 <= i < rws.len() ==> (#[trigger] rws[i]).0 < rws[i].1 && rws[i].2 > 0
    &&& forall|i: int, j: int|
        0 <= i < j < rws.len() ==> (#[trigger] rws[i]).1 <= (#[trigger] rws[j]).0
}

/// Whether the matches are not empty, and each ends at or before the start
/// of the next.
pub open spec fn matches_in_sequence(spans: Seq<(usize, usize)>) -> bool {
    &&& forall|i: int| 0 <= i < spans.len() ==> (#[trigger] spans[i]).0 < spans[i].1
    &&& forall|i: int, j: int|
        0 <= i < j < spans.len() ==> (#[trigger] spans[i]).1 <= (#[trigger] spans[j]).0
}

/// Bytes of the transformed text that touch no token stand for as many
/// bytes of the source text, which lie between two rewritten regions.
pub proof fn lemma_gap_stays_gap(m: Seq<Breakpoint>, start: int, end: int)
    requires
        without_empty(m),
        0 <= start < end,
        avoids_tokens(m, start, end),
    ensures
        clear_of(m, resolve_spec(m, start), resolve_spec(m, start) + (end - start)),
        first_behind_b(m, start) < m.len() ==> resolve_spec(m, start) + (end - start) <= m[first_behind_b(
            m,
            start,
        )].start_a,
        prev_a(m, first_behind_b(m, start)) <= resolve_spec(m, start),
{
    lemma_first_behind_b(m, start);
    let k = first_behind_b(m, start);
    if k < m.len() {
        assert(end <= token_start(m, k) || m[k].pos_b <= start);
    }
}

/// Of two stretches of the transformed text that touch no token, the one
/// behind the other stands for bytes of the source text behind those of the
/// other.
pub proof fn lemma_gaps_in_sequence(m: Seq<Breakpoint>, s1: int, e1: int, s2: int, e2: int)
    requires
        without_empty(m),
        0 <= s1 < e1 <= s2 < e2,
        avoids_tokens(m, s1, e1),
        avoids_tokens(m, s2, e2),
    ensures
        resolve_spec(m, s1) + (e1 - s1) <= resolve_spec(m, s2),
{
    lemma_first_behind_b(m, s1);
    lemma_first_behind_b(m, s2);
    lemma_gap_stays_gap(m, s1, e1);
}

/// A rewrite that is not empty and clear of the regions, none of which is
/// empty, is not refused for sharing a byte with one of them, nor for its
/// place among the breakpoints.
pub proof fn lemma_clear_is_no_overlap(m: Seq<Breakpoint>, start: int, end: int, len_b: int)
    requires
        without_empty(m),
        0 <= start < end,
        len_b > 0,
        clear_of(m, start, end),
    ensures
        update_spec(m, start, end, len_b) is Ok || update_spec(m, start, end, len_b) == Err::<
            Seq<Breakpoint>,
            RewriteError,
        >(RewriteError::PositionOverflow),
{
    lemma_first_behind_a(m, start);
    let ix = first_behind_a(m, start);
    if ix < m.len() {
        assert(token_len(m, ix) > 0);
    }
}

/// Recording a rewrite that is not empty, among regions none of which is
/// empty, leaves no region and no token empty.
pub proof fn lemma_update_without_empty(m: Seq<Breakpoint>, start: int, end: int, len_b: int)
    requires
        without_empty(m),
        0 <= start < end,
        len_b > 0,
        end <= u32::MAX,
        update_spec(m, start, end, len_b) is Ok,
    ensures
        without_empty(update_spec(m, start, end, len_b)->Ok_0),
{
    lemma_update_well_formed(m, start, end, len_b);
    lemma_update_elements(m, start, end, len_b);
    lemma_update_tokens(m, start, end, len_b);
}

/// A range that is clear of the regions, and of a rewrite, is clear of the
/// regions once the rewrite is recorded.
pub proof fn lemma_update_keeps_clear(
    m: Seq<Breakpoint>,
    start: int,
    end: int,
    len_b: int,
    from: int,
    to: int,
)
    requires
        0 <= start,
        end <= u32::MAX,
        update_spec(m, start, end, len_b) is Ok,
        clear_of(m, from, to),
        end <= from || to <= start,
    ensures
        clear_of(update_spec(m, start, end, len_b)->Ok_0, from, to),
{
    lemma_update_elements(m, start, end, len_b);
}

/// Rewrites that come one behind the other, each clear of the regions, are
/// never refused for sharing a byte with a region or with each other; and a
/// range behind them all that is clear of the regions is still clear once
/// they are recorded.
pub proof fn lemma_record_in_sequence(
    m: Seq<Breakpoint>,
    rws: Seq<(int, int, int)>,
    from: int,
    to: int,
)
    requires
        without_empty(m),
        in_sequence(rws),
        forall|i: int|
            0 <= i < rws.len() ==> 0 <= (#[trigger] rws[i]).0 && rws[i].1 <= u32::MAX && 0
                <= rws[i].2,
        forall|i: int| 0 <= i < rws.len() ==> clear_of(m, (#[trigger] rws[i]).0, rws[i].1),
        clear_of(m, from, to),
        forall|i: int| 0 <= i < rws.len() ==> (#[trigger] rws[i]).1 <= from,
    ensures
        record_all(m, rws) is Ok || record_all(m, rws) == Err::<Seq<Breakpoint>, RewriteError>(
            RewriteError::PositionOverflow,
        ),
        record_all(m, rws) is Ok ==> clear_of(record_all(m, rws)->Ok_0, from, to),
        record_all(m, rws) is Ok ==> without_empty(record_all(m, rws)->Ok_0),
    decreases rws.len(),
{
    if rws.len() > 0 {
        let front = rws.drop_last();
        let last = rws.last();
        lemma_record_in_sequence(m, front, last.0, last.1);
        lemma_record_in_sequence(m, front, from, to);
        if record_all(m, front) is Ok {
            let before = record_all(m, front)->Ok_0;
            lemma_clear_is_no_overlap(before, last.0, last.1, last.2);
            if update_spec(before, last.0, last.1, last.2) is Ok {
                lemma_update_keeps_clear(before, last.0, last.1, last.2, from, to);
                lemma_update_without_empty(before, last.0, last.1, last.2);
            }
        }
    }
}

/// The rewrites that matches stand for, one by one.
pub proof fn lemma_rewrites_one_by_one(
    m: Seq<Breakpoint>,
    spans: Seq<(usize, usize)>,
    token_len: int,
)
    requires
        rewrites_for(m, spans, token_len) is Ok,
    ensures
        rewrites_for(m, spans, token_len)->Ok_0.len() == spans.len(),
        forall|i: int|
            0 <= i < spans.len() ==> rewrite_for(m, #[trigger] spans[i], token_len) == Ok::<
                (int, int, int),
                RewriteError,
            >(rewrites_for(m, spans, token_len)->Ok_0[i]),
    decreases spans.len(),
{
    if spans.len() > 0 {
        let front = spans.drop_last();
        lemma_rewrites_one_by_one(m, front, token_len);
        assert forall|i: int| 0 <= i < spans.len() implies rewrite_for(
            m,
            #[trigger] spans[i],
            token_len,
        ) == Ok::<(int, int, int), RewriteError>(rewrites_for(m, spans, token_len)->Ok_0[i]) by {
            if i < spans.len() - 1 {
                assert(front[i] == spans[i]);
            }
        }
    }
}

/// A pass whose matches are not empty, come one behind the other and touch
/// no token of an earlier pass is never refused for a region that shares a
/// byte with another, nor for the place of a breakpoint: all that can stop
/// it is a text that grows too long.
pub proof fn lemma_pass_without_overlap(
    m: Seq<Breakpoint>,
    spans: Seq<(usize, usize)>,
    token_len: int,
)
    requires
        without_empty(m),
        token_len > 0,
        matches_in_sequence(spans),
        forall|i: int|
            0 <= i < spans.len() ==> avoids_tokens(
                m,
                (#[trigger] spans[i]).0 as int,
                spans[i].1 as int,
            ),
        rewrites_for(m, spans, token_len) is Ok,
    ensures
        record_all(m, rewrites_for(m, spans, token_len)->Ok_0) is Ok || record_all(
            m,
            rewrites_for(m, spans, token_len)->Ok_0,
        ) == Err::<Seq<Breakpoint>, RewriteError>(RewriteError::PositionOverflow),
{
    let rws = rewrites_for(m, spans, token_len)->Ok_0;
    lemma_rewrites_one_by_one(m, spans, token_len);
    lemma_rewrites_in_range(m, spans, token_len);
    assert forall|i: int| 0 <= i < rws.len() implies (#[trigger] rws[i]).0 < rws[i].1 && rws[i].2
        > 0 && clear_of(m, rws[i].0, rws[i].1) by {
        lemma_gap_stays_gap(m, spans[i].0 as int, spans[i].1 as int);
    }
    assert forall|i: int, j: int| 0 <= i < j < rws.len() implies (#[trigger] rws[i]).1 <= (
    #[trigger] rws[j]).0 by {
        lemma_gaps_in_sequence(
            m,
            spans[i].0 as int,
            spans[i].1 as int,
            spans[j].0 as int,
            spans[j].1 as int,
        );
    }
    let beyond = u32::MAX as int + 1;
    lemma_record_in_sequence(m, rws, beyond, beyond + 1);
}

/// Whether the position `b` of the transformed text lies in no token.
pub open spec fn outside_tokens(m: Seq<Breakpoint>, b: int) -> bool {
    forall|i: int| 0 <= i < m.len() ==> !(#[trigger] token_start(m, i) <= b < m[i].pos_b)
}

/// Positions of the transformed text are mapped back in their order: of
/// two of them, the first in no token, the second stands for a later byte
/// of the source text.
pub proof fn lemma_resolve_increases(m: Seq<Breakpoint>, b1: int, b2: int)
    requires
        well_formed(m),
        0 <= b1 < b2,
        outside_tokens(m, b1),
    ensures
        resolve_spec(m, b1) < resolve_spec(m, b2),
{
    lemma_first_behind_b(m, b1);
    lemma_first_behind_b(m, b2);
    let k1 = first_behind_b(m, b1);
    let k2 = first_behind_b(m, b2);
    if k1 < k2 {
        assert(!(token_start(m, k1) <= b1 < m[k1].pos_b));
    } else if k2 < k1 {
    }
}

/// A stretch of the transformed text that starts and ends outside the
/// tokens stands for a stretch of the source text: its ends are mapped
/// back in their order, and no further than the end of the text is.
pub proof fn lemma_range_is_mapped_in_order(m: Seq<Breakpoint>, start: int, end: int, len: int)
    requires
        well_formed(m),
        0 <= start <= end <= len,
        outside_tokens(m, start),
        outside_tokens(m, end),
    ensures
        0 <= resolve_spec(m, start) <= resolve_spec(m, end) <= resolve_spec(m, len),
{
    lemma_resolve_nonnegative(m, start);
    if start < end {
        lemma_resolve_increases(m, start, end);
    }
    if end < len {
        lemma_resolve_increases(m, end, len);
    }
}

/// Whether the transformed text `text` holds, outside its tokens, the bytes
/// of the source text `src` at the positions that the breakpoints lead back
/// to; its end then stands for the end of the source text.
pub open spec fn faithful(m: Seq<Breakpoint>, text: Seq<u8>, src: Seq<u8>) -> bool {
    &&& forall|i: int| 0 <= i < m.len() ==> (#[trigger] m[i]).pos_b <= text.len()
    &&& resolve_spec(m, text.len() as int) == src.len()
    &&& forall|b: int| #[trigger] faithful_at(m, text, src, b)
}

/// Whether the byte at `b`, if it is one of the text outside its tokens,
/// is the byte of the source text that `b` leads back to.
pub open spec fn faithful_at(m: Seq<Breakpoint>, text: Seq<u8>, src: Seq<u8>, b: int) -> bool {
    0 <= b < text.len() && outside_tokens(m, b) ==> 0 <= resolve_spec(m, b) < src.len() && text[b]
        == src[resolve_spec(m, b)]
}

/// A text in which nothing was rewritten is faithful to itself.
pub proof fn lemma_plain_text_is_faithful(src: Seq<u8>)
    ensures
        faithful(Seq::empty(), src, src),
{
}

/// Where the bytes `s..e` of the transformed text, which touch no token,
/// give way to a token and the rewrite is recorded, positions in front of
/// `s` are mapped back as before, and a position from `e` on is mapped back
/// from where it has moved to.
pub proof fn lemma_update_resolves_as_before(
    m: Seq<Breakpoint>,
    s: int,
    e: int,
    len_b: int,
    b: int,
)
    requires
        without_empty(m),
        0 <= s < e,
        0 < len_b,
        avoids_tokens(m, s, e),
        resolve_spec(m, s) + (e - s) <= u32::MAX,
        update_spec(m, resolve_spec(m, s), resolve_spec(m, s) + (e - s), len_b) is Ok,
        0 <= b,
        !(s <= b < e),
    ensures
        first_behind_a(m, resolve_spec(m, s)) == first_behind_b(m, s),
        ({
            let out = update_spec(m, resolve_spec(m, s), resolve_spec(m, s) + (e - s), len_b)->Ok_0;
            if b < s {
                resolve_spec(out, b) == resolve_spec(m, b)
            } else {
                resolve_spec(out, b + len_b - (e - s)) == resolve_spec(m, b)
            }
        }),
{
    let a = resolve_spec(m, s);
    lemma_first_behind_b(m, s);
    lemma_first_behind_b(m, b);
    let k = first_behind_b(m, s);
    let j = first_behind_b(m, b);
    let n = m.len() as int;
    if k < n {
        assert(e <= token_start(m, k) || m[k].pos_b <= s);
    }
    lemma_first_behind_a_is(m, a, k);
    let out = update_spec(m, a, a + (e - s), len_b)->Ok_0;
    if b < s {
        lemma_first_behind_b_is(out, b, j);
    } else {
        lemma_first_behind_b_is(out, b + len_b - (e - s), j + 1);
    }
}

/// Where the bytes `s..e` of the transformed text, which touch no token,
/// give way to a token and the rewrite is recorded, the new token stands
/// at `s`, and a position that lies in no token afterwards came from one
/// that lay in no token before.
pub proof fn lemma_update_keeps_tokens(m: Seq<Breakpoint>, s: int, e: int, len_b: int, b: int)
    requires
        without_empty(m),
        0 <= s < e,
        0 < len_b,
        avoids_tokens(m, s, e),
        resolve_spec(m, s) + (e - s) <= u32::MAX,
        update_spec(m, resolve_spec(m, s), resolve_spec(m, s) + (e - s), len_b) is Ok,
        0 <= b,
        outside_tokens(
            update_spec(m, resolve_spec(m, s), resolve_spec(m, s) + (e - s), len_b)->Ok_0,
            b,
        ),
    ensures
        !(s <= b < s + len_b),
        forall|i: int| 0 <= i < first_behind_b(m, s) ==> (#[trigger] m[i]).pos_b <= s,
        outside_tokens(
            m,
            if b < s {
                b
            } else {
                b - len_b + (e - s)
            },
        ),
{
    let a = resolve_spec(m, s);
    let out = update_spec(m, a, a + (e - s), len_b)->Ok_0;
    let k = first_behind_b(m, s);
    let n = m.len() as int;
    lemma_update_resolves_as_before(m, s, e, len_b, e);
    lemma_update_elements(m, a, a + (e - s), len_b);
    assert(!(token_start(out, k) <= b < out[k].pos_b));
    let from = if b < s {
        b
    } else {
        b - len_b + (e - s)
    };
    assert forall|i: int| 0 <= i < n implies !(#[trigger] token_start(m, i) <= from < m[i].pos_b) by {
        if i < k {
            assert(!(token_start(out, i) <= b < out[i].pos_b));
        } else {
            assert(!(token_start(out, i + 1) <= b < out[i + 1].pos_b));
        }
    }
}

/// The text in which the bytes `s..e` gave way to `token`.
pub open spec fn with_token(text: Seq<u8>, s: int, e: int, token: Seq<u8>) -> Seq<u8> {
    text.take(s) + token + text.skip(e)
}

/// Behind one rewrite, the tokens still lie within the text and the end of
/// the text still stands for the end of the source text.
proof fn lemma_rewrite_keeps_end(
    m: Seq<Breakpoint>,
    text: Seq<u8>,
    src: Seq<u8>,
    s: int,
    e: int,
    token: Seq<u8>,
)
    requires
        without_empty(m),
        faithful(m, text, src),
        0 <= s < e <= text.len(),
        token.len() > 0,
        avoids_tokens(m, s, e),
        resolve_spec(m, s) + (e - s) <= u32::MAX,
        update_spec(m, resolve_spec(m, s), resolve_spec(m, s) + (e - s), token.len() as int) is Ok,
    ensures
        ({
            let out = update_spec(
                m,
                resolve_spec(m, s),
                resolve_spec(m, s) + (e - s),
                token.len() as int,
            )->Ok_0;
            let after = with_token(text, s, e, token);
            &&& resolve_spec(out, after.len() as int) == src.len()
            &&& forall|i: int| 0 <= i < out.len() ==> (#[trigger] out[i]).pos_b <= after.len()
        }),
{
    let a = resolve_spec(m, s);
    let len_b = token.len() as int;
    let out = update_spec(m, a, a + (e - s), len_b)->Ok_0;
    let after = with_token(text, s, e, token);
    lemma_update_resolves_as_before(m, s, e, len_b, text.len() as int);
    lemma_update_elements(m, a, a + (e - s), len_b);
}

/// Behind one rewrite, a byte outside the tokens is the byte of the source
/// text that its position leads back to.
proof fn lemma_rewrite_keeps_byte(
    m: Seq<Breakpoint>,
    text: Seq<u8>,
    src: Seq<u8>,
    s: int,
    e: int,
    token: Seq<u8>,
    b: int,
)
    requires
        without_empty(m),
        faithful(m, text, src),
        0 <= s < e <= text.len(),
        token.len() > 0,
        avoids_tokens(m, s, e),
        resolve_spec(m, s) + (e - s) <= u32::MAX,
        update_spec(m, resolve_spec(m, s), resolve_spec(m, s) + (e - s), token.len() as int) is Ok,
        0 <= b < with_token(text, s, e, token).len(),
        outside_tokens(
            update_spec(
                m,
                resolve_spec(m, s),
                resolve_spec(m, s) + (e - s),
                token.len() as int,
            )->Ok_0,
            b,
        ),
    ensures
        ({
            let out = update_spec(
                m,
                resolve_spec(m, s),
                resolve_spec(m, s) + (e - s),
                token.len() as int,
            )->Ok_0;
            &&& 0 <= resolve_spec(out, b) < src.len()
            &&& with_token(text, s, e, token)[b] == src[resolve_spec(out, b)]
        }),
{
    let len_b = token.len() as int;
    lemma_update_keeps_tokens(m, s, e, len_b, b);
    if b < s {
        lemma_update_resolves_as_before(m, s, e, len_b, b);
        assert(faithful_at(m, text, src, b));
    } else {
        let from = b - len_b + (e - s);
        lemma_update_resolves_as_before(m, s, e, len_b, from);
        assert(faithful_at(m, text, src, from));
    }
}

/// One rewrite keeps the text faithful: where the bytes `s..e` of the
/// transformed text, which touch no token, give way to a token, and the
/// rewrite is recorded for the bytes of the source text that they stand
/// for, every byte outside the tokens is still the byte of the source text
/// that its position leads back to, and the end of the text still stands
/// for the end of the source text.
pub proof fn lemma_rewrite_keeps_faithful(
    m: Seq<Breakpoint>,
    text: Seq<u8>,
    src: Seq<u8>,
    s: int,
    e: int,
    token: Seq<u8>,
)
    requires
        without_empty(m),
        faithful(m, text, src),
        0 <= s < e <= text.len(),
        token.len() > 0,
        avoids_tokens(m, s, e),
        resolve_spec(m, s) + (e - s) <= u32::MAX,
        update_spec(m, resolve_spec(m, s), resolve_spec(m, s) + (e - s), token.len() as int) is Ok,
    ensures
        faithful(
            update_spec(
                m,
                resolve_spec(m, s),
                resolve_spec(m, s) + (e - s),
                token.len() as int,
            )->Ok_0,
            with_token(text, s, e, token),
            src,
        ),
{
    let out = update_spec(m, resolve_spec(m, s), resolve_spec(m, s) + (e - s), token.len() as int)->Ok_0;
    let after = with_token(text, s, e, token);
    lemma_rewrite_keeps_end(m, text, src, s, e, token);
    assert forall|b: int| #[trigger] faithful_at(out, after, src, b) by {
        if 0 <= b < after.len() && outside_tokens(out, b) {
            lemma_rewrite_keeps_byte(m, text, src, s, e, token, b);
        }
    }
}

/// Where the bytes `s..e` of the transformed text, which touch no token,
/// give way to a token and the rewrite is recorded, bytes behind them that
/// touch no token still touch none where they have moved to.
pub proof fn lemma_update_keeps_avoiding(
    m: Seq<Breakpoint>,
    s: int,
    e: int,
    len_b: int,
    x: int,
    y: int,
)
    requires
        without_empty(m),
        0 <= s < e,
        0 < len_b,
        avoids_tokens(m, s, e),
        resolve_spec(m, s) + (e - s) <= u32::MAX,
        update_spec(m, resolve_spec(m, s), resolve_spec(m, s) + (e - s), len_b) is Ok,
        e <= x,
        avoids_tokens(m, x, y),
    ensures
        avoids_tokens(
            update_spec(m, resolve_spec(m, s), resolve_spec(m, s) + (e - s), len_b)->Ok_0,
            x + len_b - (e - s),
            y + len_b - (e - s),
        ),
{
    let a = resolve_spec(m, s);
    let out = update_spec(m, a, a + (e - s), len_b)->Ok_0;
    let k = first_behind_b(m, s);
    lemma_first_behind_b(m, s);
    lemma_update_resolves_as_before(m, s, e, len_b, e);
    assert forall|i: int| 0 <= i < out.len() implies y + len_b - (e - s) <= #[trigger] token_start(
        out,
        i,
    ) || (#[trigger] out[i]).pos_b <= x + len_b - (e - s) by {
        if i < k {
        } else if i > k {
            assert(y <= token_start(m, i - 1) || m[i - 1].pos_b <= x);
        }
    }
}

/// By how much the text grows when each of the matches gives way to a
/// token of `len_b` bytes.
pub open spec fn growth(spans: Seq<(usize, usize)>, len_b: int) -> int
    decreases spans.len(),
{
    if spans.len() == 0 {
        0
    } else {
        growth(spans.drop_last(), len_b) + len_b - (spans.last().1 - spans.last().0)
    }
}

/// What stands behind the last match is not touched: the text with its
/// matches replaced is the part up to `x` with its matches replaced, and
/// then the rest as it was.
pub proof fn lemma_spliced_front(bytes: Seq<u8>, spans: Seq<(usize, usize)>, token: Seq<u8>, x: int)
    requires
        spans_in_order(spans, bytes.len() as int),
        forall|i: int| 0 <= i < spans.len() ==> (#[trigger] spans[i]).1 <= x,
        0 <= x <= bytes.len(),
    ensures
        spliced(bytes, spans, token) == spliced(bytes.take(x), spans, token) + bytes.skip(x),
        spliced(bytes.take(x), spans, token).len() == x + growth(spans, token.len() as int),
    decreases spans.len(),
{
    if spans.len() == 0 {
    } else {
        let front = spans.drop_last();
        let s = spans.last().0 as int;
        lemma_spliced_front(bytes, front, token, s);
        assert(bytes.take(x).take(s) =~= bytes.take(s));
    }
}

/// Whether the matches, found in a text of `len` bytes that `m` leads
/// back from, can each give way to a token without harm: none is empty,
/// they come one behind the other, and none touches a token.
pub open spec fn clean_matches(m: Seq<Breakpoint>, spans: Seq<(usize, usize)>, len: int) -> bool {
    &&& spans_in_order(spans, len)
    &&& matches_in_sequence(spans)
    &&& forall|i: int|
        0 <= i < spans.len() ==> avoids_tokens(
            m,
            (#[trigger] spans[i]).0 as int,
            spans[i].1 as int,
        )
}

/// The text is faithful, none of its regions and tokens is empty, and the
/// bytes `x..y` touch no token.
#[verifier::opaque]
spec fn settled(m: Seq<Breakpoint>, text: Seq<u8>, src: Seq<u8>, x: int, y: int) -> bool {
    without_empty(m) && faithful(m, text, src) && 0 <= x && avoids_tokens(m, x, y)
}

/// The matches are clean, and all of them end at or before `x`.
#[verifier::opaque]
spec fn clean_up_to(m: Seq<Breakpoint>, spans: Seq<(usize, usize)>, len: int, x: int) -> bool {
    clean_matches(m, spans, len) && forall|i: int|
        0 <= i < spans.len() ==> (#[trigger] spans[i]).1 <= x
}

/// All but the last of clean matches are clean, and end in front of the
/// last, which is not empty and touches no token.
proof fn lemma_clean_front(
    m: Seq<Breakpoint>,
    text: Seq<u8>,
    src: Seq<u8>,
    spans: Seq<(usize, usize)>,
    x: int,
    y: int,
)
    requires
        settled(m, text, src, x, y),
        clean_up_to(m, spans, text.len() as int, x),
        spans.len() > 0,
    ensures
        clean_up_to(m, spans.drop_last(), text.len() as int, spans.last().0 as int),
        clean_up_to(m, spans.drop_last(), text.len() as int, x),
        settled(m, text, src, spans.last().0 as int, spans.last().1 as int),
        spans_in_order(spans, text.len() as int),
        spans.last().0 < spans.last().1 <= x,
{
    reveal(settled);
    reveal(clean_up_to);
    let len = text.len() as int;
}

/// One rewrite more: what `lemma_rewrite_keeps_faithful` and its
/// companions say of it, taken together.
proof fn lemma_one_more_rewrite(
    m: Seq<Breakpoint>,
    text: Seq<u8>,
    src: Seq<u8>,
    s: int,
    e: int,
    token: Seq<u8>,
    x: int,
    y: int,
)
    requires
        settled(m, text, src, s, e),
        settled(m, text, src, x, y),
        s < e <= text.len(),
        token.len() > 0,
        resolve_spec(m, s) + (e - s) <= u32::MAX,
        update_spec(m, resolve_spec(m, s), resolve_spec(m, s) + (e - s), token.len() as int) is Ok,
        e <= x,
    ensures
        ({
            let out = update_spec(
                m,
                resolve_spec(m, s),
                resolve_spec(m, s) + (e - s),
                token.len() as int,
            )->Ok_0;
            let by = token.len() - (e - s);
            &&& settled(out, with_token(text, s, e, token), src, x + by, y + by)
            &&& resolve_spec(out, x + by) == resolve_spec(m, x)
        }),
{
    reveal(settled);
    let a = resolve_spec(m, s);
    let len_b = token.len() as int;
    lemma_resolve_nonnegative(m, s);
    lemma_rewrite_keeps_faithful(m, text, src, s, e, token);
    lemma_update_without_empty(m, a, a + (e - s), len_b);
    lemma_update_keeps_avoiding(m, s, e, len_b, x, y);
    lemma_update_resolves_as_before(m, s, e, len_b, x);
}

/// The text with all its matches replaced is the text with all but the
/// last replaced, in which the last then gives way to the token.
proof fn lemma_spliced_last(text: Seq<u8>, spans: Seq<(usize, usize)>, token: Seq<u8>)
    requires
        spans_in_order(spans, text.len() as int),
        spans.len() > 0,
    ensures
        ({
            let d = growth(spans.drop_last(), token.len() as int);
            &&& 0 <= spans.last().0 + d
            &&& spans.last().1 + d <= spliced(text, spans.drop_last(), token).len()
            &&& spliced(text, spans, token) == with_token(
                spliced(text, spans.drop_last(), token),
                spans.last().0 + d,
                spans.last().1 + d,
                token,
            )
        }),
{
    let front = spans.drop_last();
    let s = spans.last().0 as int;
    let d = growth(front, token.len() as int);
    lemma_spliced_front(text, front, token, s);
}

/// Recording the rewrites of all the matches is recording those of all
/// but the last, and then that of the last.
proof fn lemma_last_rewrite(m: Seq<Breakpoint>, spans: Seq<(usize, usize)>, len_b: int)
    requires
        spans.len() > 0,
        rewrites_for(m, spans, len_b) is Ok,
        record_all(m, rewrites_for(m, spans, len_b)->Ok_0) is Ok,
    ensures
        rewrites_for(m, spans.drop_last(), len_b) is Ok,
        record_all(m, rewrites_for(m, spans.drop_last(), len_b)->Ok_0) is Ok,
        resolve_spec(m, spans.last().0 as int) + (spans.last().1 - spans.last().0) <= u32::MAX,
        record_all(m, rewrites_for(m, spans, len_b)->Ok_0) == update_spec(
            record_all(m, rewrites_for(m, spans.drop_last(), len_b)->Ok_0)->Ok_0,
            resolve_spec(m, spans.last().0 as int),
            resolve_spec(m, spans.last().0 as int) + (spans.last().1 - spans.last().0),
            len_b,
        ),
        growth(spans, len_b) == growth(spans.drop_last(), len_b) + len_b - (spans.last().1
            - spans.last().0),
{
    let rws = rewrites_for(m, spans, len_b)->Ok_0;
    let front_rws = rewrites_for(m, spans.drop_last(), len_b)->Ok_0;
    assert(rws.drop_last() =~= front_rws);
}

/// The induction behind `lemma_matches_keep_faithful`.
proof fn lemma_matches_one_by_one(
    m: Seq<Breakpoint>,
    text: Seq<u8>,
    src: Seq<u8>,
    spans: Seq<(usize, usize)>,
    token: Seq<u8>,
    x: int,
    y: int,
)
    requires
        settled(m, text, src, x, y),
        clean_up_to(m, spans, text.len() as int, x),
        token.len() > 0,
        rewrites_for(m, spans, token.len() as int) is Ok,
        record_all(m, rewrites_for(m, spans, token.len() as int)->Ok_0) is Ok,
    ensures
        ({
            let after = record_all(m, rewrites_for(m, spans, token.len() as int)->Ok_0)->Ok_0;
            let d = growth(spans, token.len() as int);
            &&& settled(after, spliced(text, spans, token), src, x + d, y + d)
            &&& resolve_spec(after, x + d) == resolve_spec(m, x)
        }),
    decreases spans.len(),
{
    let len_b = token.len() as int;
    if spans.len() > 0 {
        let front = spans.drop_last();
        let s = spans.last().0 as int;
        let e = spans.last().1 as int;
        lemma_last_rewrite(m, spans, len_b);
        lemma_clean_front(m, text, src, spans, x, y);
        lemma_matches_one_by_one(m, text, src, front, token, s, e);
        lemma_matches_one_by_one(m, text, src, front, token, x, y);
        let d = growth(front, len_b);
        let before = record_all(m, rewrites_for(m, front, len_b)->Ok_0)->Ok_0;
        lemma_spliced_last(text, spans, token);
        lemma_one_more_rewrite(
            before,
            spliced(text, front, token),
            src,
            s + d,
            e + d,
            token,
            x + d,
            y + d,
        );
    }
}

/// Clean matches keep the text faithful. Bytes `x..y` behind them all that
/// touch no token still touch none where they have moved to, and lead back
/// to where they led before.
pub proof fn lemma_matches_keep_faithful(
    m: Seq<Breakpoint>,
    text: Seq<u8>,
    src: Seq<u8>,
    spans: Seq<(usize, usize)>,
    token: Seq<u8>,
    x: int,
    y: int,
)
    requires
        without_empty(m),
        faithful(m, text, src),
        clean_matches(m, spans, text.len() as int),
        token.len() > 0,
        rewrites_for(m, spans, token.len() as int) is Ok,
        record_all(m, rewrites_for(m, spans, token.len() as int)->Ok_0) is Ok,
        forall|i: int| 0 <= i < spans.len() ==> (#[trigger] spans[i]).1 <= x,
        0 <= x,
        avoids_tokens(m, x, y),
    ensures
        ({
            let after = record_all(m, rewrites_for(m, spans, token.len() as int)->Ok_0)->Ok_0;
            let d = growth(spans, token.len() as int);
            &&& without_empty(after)
            &&& faithful(after, spliced(text, spans, token), src)
            &&& avoids_tokens(after, x + d, y + d)
            &&& resolve_spec(after, x + d) == resolve_spec(m, x)
        }),
{
    reveal(settled);
    reveal(clean_up_to);
    lemma_matches_one_by_one(m, text, src, spans, token, x, y);
}

/// What is found in a faithful text, at bytes that touch no token, stands
/// in the source text as it was found: the place that the breakpoints lead
/// back to is as long, and holds the same bytes.
pub proof fn lemma_found_text_is_source_text(
    m: Seq<Breakpoint>,
    text: Seq<u8>,
    src: Seq<u8>,
    start: int,
    end: int,
)
    requires
        without_empty(m),
        faithful(m, text, src),
        0 <= start < end <= text.len(),
        avoids_tokens(m, start, end),
    ensures
        resolve_spec(m, end) == resolve_spec(m, start) + (end - start),
        0 <= resolve_spec(m, start),
        resolve_spec(m, end) <= src.len(),
        src.subrange(resolve_spec(m, start), resolve_spec(m, end)) == text.subrange(start, end),
{
    lemma_first_behind_b(m, start);
    let k = first_behind_b(m, start);
    let a = resolve_spec(m, start);
    if k < m.len() {
        assert(end <= token_start(m, k) || m[k].pos_b <= start);
    }
    assert forall|b: int| start <= b <= end implies resolve_spec(m, b) == a + (b - start) by {
        lemma_first_behind_b_is(m, b, k);
    }
    assert forall|b: int| start <= b < end implies 0 <= a + (b - start) < src.len() && text[b]
        == src[a + (b - start)] by {
        assert(faithful_at(m, text, src, b));
    }
    assert(faithful_at(m, text, src, end - 1));
}

/// A pass keeps the breakpoints well formed.
pub proof fn lemma_pass_well_formed(
    text: Seq<char>,
    m: Seq<Breakpoint>,
    pattern: Seq<char>,
    token: Seq<char>,
)
    requires
        well_formed(m),
        pass_spec(text, m, pattern, token) is Ok,
    ensures
        well_formed(pass_spec(text, m, pattern, token)->Ok_0.1),
{
    let spans = regex_spans(pattern, text);
    let token_len = encode_utf8(token).len() as int;
    lemma_rewrites_in_range(m, spans, token_len);
    lemma_record_all_well_formed(m, rewrites_for(m, spans, token_len)->Ok_0);
}

/// Whatever text is given, the breakpoints that come with the text that was
/// made of it are well formed: the rewritten regions are in increasing
/// order and share no byte, and both coordinates strictly increase.
pub proof fn lemma_filter_well_formed(src: Seq<char>)
    requires
        filter_spec(src) is Ok,
    ensures
        well_formed(filter_spec(src)->Ok_0.1),
{
    let first = pass_spec(src, Seq::empty(), DISPLAY_MATH@, DISPLAY_MATH_TOKEN@);
    lemma_pass_well_formed(src, Seq::empty(), DISPLAY_MATH@, DISPLAY_MATH_TOKEN@);
    let second = then_pass(first, INLINE_MATH@, INLINE_MATH_TOKEN@);
    lemma_pass_well_formed(first->Ok_0.0, first->Ok_0.1, INLINE_MATH@, INLINE_MATH_TOKEN@);
    let third = then_pass(second, PARENTHESIS_MATH@, PARENTHESIS_MATH_TOKEN@);
    lemma_pass_well_formed(
        second->Ok_0.0,
        second->Ok_0.1,
        PARENTHESIS_MATH@,
        PARENTHESIS_MATH_TOKEN@,
    );
    lemma_pass_well_formed(third->Ok_0.0, third->Ok_0.1, BRACKET_MATH@, BRACKET_MATH_TOKEN@);
}

/// Whether the matches of `pattern` in `text`, which `m` leads back from,
/// are none of them empty and touch no token.
pub open spec fn clean_pass(text: Seq<char>, m: Seq<Breakpoint>, pattern: Seq<char>) -> bool {
    let spans = regex_spans(pattern, text);
    &&& matches_in_sequence(spans)
    &&& forall|i: int|
        0 <= i < spans.len() ==> avoids_tokens(
            m,
            (#[trigger] spans[i]).0 as int,
            spans[i].1 as int,
        )
}

/// Whether the matches of `pattern` are clean in what the pass before it
/// left, if that one succeeded.
pub open spec fn clean_then(
    before: Result<(Seq<char>, Seq<Breakpoint>), FilterError>,
    pattern: Seq<char>,
) -> bool {
    match before {
        Ok((text, m)) => clean_pass(text, m, pattern),
        Err(_) => true,
    }
}

/// Whether, in each of the four passes over `src`, no match is empty and
/// none touches a token that an earlier pass has put in.
pub open spec fn clean_filter(src: Seq<char>) -> bool {
    let first = pass_spec(src, Seq::empty(), DISPLAY_MATH@, DISPLAY_MATH_TOKEN@);
    let second = then_pass(first, INLINE_MATH@, INLINE_MATH_TOKEN@);
    let third = then_pass(second, PARENTHESIS_MATH@, PARENTHESIS_MATH_TOKEN@);
    &&& clean_pass(src, Seq::empty(), DISPLAY_MATH@)
    &&& clean_then(first, INLINE_MATH@)
    &&& clean_then(second, PARENTHESIS_MATH@)
    &&& clean_then(third, BRACKET_MATH@)
}

/// A pass with clean matches keeps the text faithful: `after`, the text in
/// which each match gave way to the token, holds outside its tokens the
/// bytes of the source text that the new breakpoints lead back to.
pub proof fn lemma_pass_keeps_faithful(
    text: Seq<char>,
    m: Seq<Breakpoint>,
    src: Seq<u8>,
    pattern: Seq<char>,
    token: Seq<char>,
    after: Seq<char>,
)
    requires
        without_empty(m),
        faithful(m, encode_utf8(text), src),
        clean_pass(text, m, pattern),
        spans_in_order(regex_spans(pattern, text), encode_utf8(text).len() as int),
        token.len() > 0,
        pass_spec(text, m, pattern, token) is Ok,
        encode_utf8(after) == spliced(
            encode_utf8(text),
            regex_spans(pattern, text),
            encode_utf8(token),
        ),
    ensures
        without_empty(pass_spec(text, m, pattern, token)->Ok_0.1),
        faithful(pass_spec(text, m, pattern, token)->Ok_0.1, encode_utf8(after), src),
{
    let bytes = encode_utf8(text);
    let end = bytes.len() as int;
    lemma_matches_keep_faithful(
        m,
        bytes,
        src,
        regex_spans(pattern, text),
        encode_utf8(token),
        end,
        end + 1,
    );
}

/// Cuts the mathematical notation out of `src`, so that it is not taken for
/// links, and returns the new text with the breakpoints that lead back.
/// Where no match is empty and none touches a token of an earlier pass,
/// every byte of the new text outside its tokens is the byte of `src` that
/// its position leads back to, and the end of the new text stands for the
/// end of `src`.
pub fn filter_out_latex(src: &str) -> (r: Result<(String, ByteIndexMap), FilterError>)
    ensures
        match filter_spec(src@) {
            Ok((t, m)) => r matches Ok(p) && p.0@ == t && p.1@ == m,
            Err(e) => r matches Err(x) && x == e,
        },
        r matches Ok(p) ==> well_formed(p.1@),
        clean_filter(src@) ==> (r matches Ok(p) ==> without_empty(p.1@) && faithful(
            p.1@,
            encode_utf8(p.0@),
            encode_utf8(src@),
        )),
{
    let ghost source = encode_utf8(src@);
    let ghost clean = clean_filter(src@);
    let start = ByteIndexMap::new();
    proof {
        lemma_tokens_are_plain();
    }
    let (first, map) = apply_pattern(src.to_owned(), start, DISPLAY_MATH, DISPLAY_MATH_TOKEN)?;
    proof {
        if clean {
            lemma_pass_keeps_faithful(
                src@,
                Seq::empty(),
                source,
                DISPLAY_MATH@,
                DISPLAY_MATH_TOKEN@,
                first@,
            );
        }
    }
    let ghost before = (first@, map@);
    let (second, map) = apply_pattern(first, map, INLINE_MATH, INLINE_MATH_TOKEN)?;
    proof {
        if clean {
            lemma_pass_keeps_faithful(
                before.0,
                before.1,
                source,
                INLINE_MATH@,
                INLINE_MATH_TOKEN@,
                second@,
            );
        }
    }
    let ghost before = (second@, map@);
    let (third, map) = apply_pattern(second, map, PARENTHESIS_MATH, PARENTHESIS_MATH_TOKEN)?;
    proof {
        if clean {
            lemma_pass_keeps_faithful(
                before.0,
                before.1,
                source,
                PARENTHESIS_MATH@,
                PARENTHESIS_MATH_TOKEN@,
                third@,
            );
        }
    }
    let ghost before = (third@, map@);
    let (last, map) = apply_pattern(third, map, BRACKET_MATH, BRACKET_MATH_TOKEN)?;
    proof {
        if clean {
            lemma_pass_keeps_faithful(
                before.0,
                before.1,
                source,
                BRACKET_MATH@,
                BRACKET_MATH_TOKEN@,
                last@,
            );
        }
        lemma_filter_well_formed(src@);
    }
    Ok((last, map))
}

/// None of the four tokens holds a `$`, and none is empty: each stands in
/// the text as it is written.
pub proof fn lemma_tokens_are_plain()
    ensures
        !DISPLAY_MATH_TOKEN@.contains('$') && DISPLAY_MATH_TOKEN@.len() > 0,
        !INLINE_MATH_TOKEN@.contains('$') && INLINE_MATH_TOKEN@.len() > 0,
        !PARENTHESIS_MATH_TOKEN@.contains('$') && PARENTHESIS_MATH_TOKEN@.len() > 0,
        !BRACKET_MATH_TOKEN@.contains('$') && BRACKET_MATH_TOKEN@.len() > 0,
{
    reveal_strlit("LATEX_DOUBLE_DOLLAR_SUBSTITUTED");
    reveal_strlit("LATEX_SINGLE_DOLLAR_SUBSTITUTED");
    reveal_strlit("LATEX_ESCAPED_PARENTHESIS_SUBSTITUTED");
    reveal_strlit("LATEX_ESCAPED_SQUARE_BRACKET_SUBSTITUTED");
}

/// A text in which none of the four patterns matches comes back unchanged,
/// with no breakpoint: every position then stands for itself.
pub proof fn lemma_filter_leaves_plain_text(src: Seq<char>)
    requires
        free_of_latex(src),
    ensures
        filter_spec(src) == Ok::<(Seq<char>, Seq<Breakpoint>), FilterError>((src, Seq::empty())),
{
    lemma_tokens_are_plain();
    vstd::utf8::encode_utf8_decode_utf8(src);
}

} // verus!
