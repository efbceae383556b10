use vstd::prelude::*;
use crate::ids::{DropToken, NodeId, SharedMemoryId};
use crate::messages::SharedMemoryInput;

verus! {

/// The tokens are pairwise distinct and none of them is outstanding in `s`.
pub open spec fn fresh_tokens(s: Seq<TokenRecord>, tokens: Seq<DropToken>) -> bool {
    &&& forall|i: int| 0 <= i < tokens.len() ==> !is_outstanding(s, #[trigger] tokens[i].0)
    &&& forall|i: int, j: int| 0 <= i < j < tokens.len() ==> tokens[i].0 != tokens[j].0
}

/// The records of a segment handed to `consumers[i]` under `tokens[i]`.
pub open spec fn share_records(seg: Seq<char>, consumers: Seq<String>, tokens: Seq<DropToken>) -> Seq<TokenRecord> {
    Seq::new(tokens.len(), |i: int| (tokens[i].0, seg, consumers[i]@))
}

/// The token value `t` is among `tokens`.
pub open spec fn listed(tokens: Seq<DropToken>, t: u128) -> bool {
    exists|k: int| 0 <= k < tokens.len() && tokens[k].0 == t
}

/// Some token among `tokens` was outstanding in `s` for segment `seg`.
pub open spec fn released_from(s: Seq<TokenRecord>, tokens: Seq<DropToken>, seg: Seq<char>) -> bool {
    exists|i: int| 0 <= i < s.len() && s[i].1 == seg && listed(tokens, s[i].0)
}

/// One outstanding token as the contracts see it: token value, segment
/// handle, consumer.
pub type TokenRecord = (u128, Seq<char>, Seq<char>);

/// No token value occurs twice.
pub open spec fn unique_tokens(s: Seq<TokenRecord>) -> bool {
    forall|i: int, j: int| 0 <= i < j < s.len() ==> s[i].0 != s[j].0
}

/// Token `t` is outstanding.
pub open spec fn is_outstanding(s: Seq<TokenRecord>, t: u128) -> bool {
    exists|i: int| 0 <= i < s.len() && s[i].0 == t
}

/// How many outstanding tokens refer to segment `seg`.
pub open spec fn holders(s: Seq<TokenRecord>, seg: Seq<char>) -> nat
    decreases s.len(),
{
    if s.len() == 0 {
        0
    } else {
        holders(s.drop_last(), seg) + if s.last().1 == seg { 1nat } else { 0nat }
    }
}

/// Consumer `c` holds a token for segment `seg`.
pub open spec fn held_by(s: Seq<TokenRecord>, seg: Seq<char>, c: Seq<char>) -> bool {
    exists|i: int| 0 <= i < s.len() && s[i].1 == seg && s[i].2 == c
}

/// The records of every consumer but `c`, in their order.
pub open spec fn without_consumer(s: Seq<TokenRecord>, c: Seq<char>) -> Seq<TokenRecord>
    decreases s.len(),
{
    if s.len() == 0 {
        s
    } else {
        let rest = without_consumer(s.drop_last(), c);
        if s.last().2 == c {
            rest
        } else {
            rest.push(s.last())
        }
    }
}

/// The views of a list of handles.
pub open spec fn handles(v: Seq<String>) -> Seq<Seq<char>> {
    v.map_values(|h: String| h@)
}

/// An outstanding drop token: which segment it keeps alive, and for whom.
pub struct Outstanding {
    pub token: DropToken,
    pub segment: SharedMemoryId,
    pub consumer: NodeId,
}

impl View for Outstanding {
    type V = TokenRecord;

    open spec fn view(&self) -> TokenRecord {
        (self.token.0, self.segment@, self.consumer@)
    }
}

/// Why the ledger refused an operation.
#[derive(Debug, Clone, Copy, PartialEq, Eq, Structural)]
pub enum LedgerError {
    /// The token is already outstanding.
    TokenInUse,
    /// The token is not outstanding.
    UnknownToken,
}

/// Bookkeeping of the drop tokens that keep shared memory segments alive: a
/// segment may be freed once no token refers to it.
pub struct DropLedger {
    entries: Vec<Outstanding>,
}

impl View for DropLedger {
    type V = Seq<TokenRecord>;

    closed spec fn view(&self) -> Seq<TokenRecord> {
        self.entries@.map_values(|e: Outstanding| e@)
    }
}

proof fn lemma_holders_push(s: Seq<TokenRecord>, r: TokenRecord, seg: Seq<char>)
    ensures
        holders(s.push(r), seg) == holders(s, seg) + if r.1 == seg { 1nat } else { 0nat },
{
    assert(s.push(r).drop_last() =~= s);
}

proof fn lemma_holders_remove(s: Seq<TokenRecord>, i: int, seg: Seq<char>)
    requires
        0 <= i < s.len(),
    ensures
        holders(s.remove(i), seg) + if s[i].1 == seg { 1nat } else { 0nat } == holders(s, seg),
    decreases s.len(),
{
    if i == s.len() - 1 {
        assert(s.remove(i) =~= s.drop_last());
    } else {
        lemma_holders_remove(s.drop_last(), i, seg);
        assert(s.remove(i).drop_last() =~= s.drop_last().remove(i));
        assert(s.remove(i).last() == s.last());
    }
}

/// Removing a record keeps the others' tokens distinct.
proof fn lemma_unique_remove(s: Seq<TokenRecord>, i: int)
    requires
        0 <= i < s.len(),
        unique_tokens(s),
    ensures
        unique_tokens(s.remove(i)),
        !is_outstanding(s.remove(i), s[i].0),
        forall|t: u128| t != s[i].0 ==> (is_outstanding(s.remove(i), t) <==> is_outstanding(s, t)),
{
    let r = s.remove(i);
    assert forall|a: int, b: int| 0 <= a < b < r.len() implies r[a].0 != r[b].0 by {
        let x = if a < i { a } else { a + 1 };
        let y = if b < i { b } else { b + 1 };
        assert(r[a] == s[x] && r[b] == s[y]);
    }
    assert forall|t: u128| t != s[i].0 && is_outstanding(s, t) implies is_outstanding(r, t) by {
        let k = choose|k: int| 0 <= k < s.len() && s[k].0 == t;
        let m = if k < i { k } else { k - 1 };
        assert(r[m] == s[k]);
    }
    assert forall|t: u128| is_outstanding(r, t) implies t != s[i].0 && is_outstanding(s, t) by {
        let k = choose|k: int| 0 <= k < r.len() && r[k].0 == t;
        let m = if k < i { k } else { k + 1 };
        assert(r[k] == s[m]);
    }
}

proof fn lemma_without_consumer_from(s: Seq<TokenRecord>, c: Seq<char>)
    ensures
        forall|k: int| 0 <= k < without_consumer(s, c).len() ==>
            #[trigger] without_consumer(s, c)[k].2 != c
            && exists|j: int| 0 <= j < s.len() && s[j] == without_consumer(s, c)[k],
        forall|j: int| 0 <= j < s.len() && s[j].2 != c ==> without_consumer(s, c).contains(#[trigger] s[j]),
        unique_tokens(s) ==> unique_tokens(without_consumer(s, c)),
    decreases s.len(),
{
    if s.len() > 0 {
        let p = s.drop_last();
        lemma_without_consumer_from(p, c);
        let w = without_consumer(s, c);
        let wp = without_consumer(p, c);
        assert forall|k: int| 0 <= k < w.len() implies #[trigger] w[k].2 != c
            && exists|j: int| 0 <= j < s.len() && s[j] == w[k] by {
            if k < wp.len() {
                assert(w[k] == wp[k]);
                assert(wp[k].2 != c);
                let j = choose|j: int| 0 <= j < p.len() && p[j] == wp[k];
                assert(s[j] == w[k]);
            } else {
                assert(s[s.len() - 1] == w[k]);
            }
        }
        assert forall|j: int| 0 <= j < s.len() && s[j].2 != c implies w.contains(#[trigger] s[j]) by {
            if j < p.len() {
                assert(p[j] == s[j]);
                let k = choose|k: int| 0 <= k < wp.len() && wp[k] == p[j];
                assert(w[k] == s[j]);
            } else {
                assert(w[w.len() - 1] == s[j]);
            }
        }
        if unique_tokens(s) {
            assert(unique_tokens(p));
            assert forall|a: int, b: int| 0 <= a < b < w.len() implies w[a].0 != w[b].0 by {
                if b < wp.len() {
                    assert(w[a] == wp[a] && w[b] == wp[b]);
                } else {
                    assert(w[b] == s.last());
                    assert(w[a] == wp[a]);
                    assert(wp[a].2 != c);
                    let j = choose|j: int| 0 <= j < p.len() && p[j] == wp[a];
                    assert(s[j] == p[j]);
                }
            }
        }
    }
}

/// Retiring a token takes exactly one holder from its segment, so the
/// segment can be freed exactly when the token retired was its last one.
pub proof fn lemma_segment_freed_by_last_token(s: Seq<TokenRecord>, i: int)
    requires
        0 <= i < s.len(),
    ensures
        holders(s.remove(i), s[i].1) + 1 == holders(s, s[i].1),
        holders(s.remove(i), s[i].1) == 0 <==> holders(s, s[i].1) == 1,
        forall|seg: Seq<char>| seg != s[i].1 ==> holders(s.remove(i), seg) == holders(s, seg),
{
    lemma_holders_remove(s, i, s[i].1);
    assert forall|seg: Seq<char>| seg != s[i].1 implies holders(s.remove(i), seg) == holders(s, seg) by {
        lemma_holders_remove(s, i, seg);
    }
}

/// Issuing a token for a segment adds exactly one holder to it and none to
/// any other segment.
pub proof fn lemma_issue_adds_one_holder(s: Seq<TokenRecord>, r: TokenRecord)
    ensures
        holders(s.push(r), r.1) == holders(s, r.1) + 1,
        forall|seg: Seq<char>| seg != r.1 ==> holders(s.push(r), seg) == holders(s, seg),
{
    lemma_holders_push(s, r, r.1);
    assert forall|seg: Seq<char>| seg != r.1 implies holders(s.push(r), seg) == holders(s, seg) by {
        lemma_holders_push(s, r, seg);
    }
}

/// Releasing a consumer retires every token that it held and keeps every
/// token held by the others.
pub proof fn lemma_release_consumer_retires_all(s: Seq<TokenRecord>, c: Seq<char>)
    requires
        unique_tokens(s),
    ensures
        unique_tokens(without_consumer(s, c)),
        forall|i: int| 0 <= i < s.len() && s[i].2 == c ==> !is_outstanding(without_consumer(s, c), #[trigger] s[i].0),
        forall|i: int| 0 <= i < s.len() && s[i].2 != c ==> without_consumer(s, c).contains(#[trigger] s[i]),
        forall|seg: Seq<char>| !held_by(without_consumer(s, c), seg, c),
{
    lemma_without_consumer_from(s, c);
    let w = without_consumer(s, c);
    assert forall|i: int| 0 <= i < s.len() && s[i].2 == c implies !is_outstanding(w, #[trigger] s[i].0) by {
        if is_outstanding(w, s[i].0) {
            let k = choose|k: int| 0 <= k < w.len() && w[k].0 == s[i].0;
            assert(w[k].2 != c);
            let j = choose|j: int| 0 <= j < s.len() && s[j] == w[k];
            assert(j != i);
        }
    }
    assert forall|seg: Seq<char>| !held_by(w, seg, c) by {
        if held_by(w, seg, c) {
            let k = choose|k: int| 0 <= k < w.len() && w[k].1 == seg && w[k].2 == c;
            assert(w[k].2 != c);
        }
    }
}

fn contains_handle(v: &Vec<SharedMemoryId>, h: &SharedMemoryId) -> (r: bool)
    ensures
        r == handles(v@).contains(h@),
{
    let mut i: usize = 0;
    while i < v.len()
        invariant
            i <= v@.len(),
            forall|k: int| 0 <= k < i ==> v@[k]@ != h@,
        decreases v.len() - i,
    {
        if v[i] == *h {
            assert(handles(v@)[i as int] == h@);
            return true;
        }
        i += 1;
    }
    assert forall|k: int| 0 <= k < handles(v@).len() implies handles(v@)[k] != h@ by {
        assert(handles(v@)[k] == v@[k]@);
    }
    false
}

proof fn lemma_remove_contains(s: Seq<TokenRecord>, i: int)
    requires
        0 <= i < s.len(),
        unique_tokens(s),
    ensures
        forall|r: TokenRecord| s.remove(i).contains(r) <==> (s.contains(r) && r.0 != s[i].0),
{
    let t = s.remove(i);
    assert forall|r: TokenRecord| t.contains(r) <==> (s.contains(r) && r.0 != s[i].0) by {
        if t.contains(r) {
            let k = choose|k: int| 0 <= k < t.len() && t[k] == r;
            let m = if k < i { k } else { k + 1 };
            assert(s[m] == r);
        }
        if s.contains(r) && r.0 != s[i].0 {
            let m = choose|m: int| 0 <= m < s.len() && s[m] == r;
            assert(m != i);
            let k = if m < i { m } else { m - 1 };
            assert(t[k] == r);
        }
    }
}

proof fn lemma_listed_step(tokens: Seq<DropToken>, k: int)
    requires
        0 <= k < tokens.len(),
    ensures
        forall|t: u128| listed(tokens.take(k + 1), t) <==> (listed(tokens.take(k), t) || tokens[k].0 == t),
{
    let a = tokens.take(k);
    let b = tokens.take(k + 1);
    assert forall|t: u128| listed(b, t) <==> (listed(a, t) || tokens[k].0 == t) by {
        if listed(b, t) {
            let j = choose|j: int| 0 <= j < b.len() && b[j].0 == t;
            if j < k {
                assert(a[j] == tokens[j]);
            }
        }
        if listed(a, t) {
            let j = choose|j: int| 0 <= j < a.len() && a[j].0 == t;
            assert(b[j] == tokens[j]);
        }
        if tokens[k].0 == t {
            assert(b[k] == tokens[k]);
        }
    }
}

impl DropLedger {
    /// The ledger's invariant: every outstanding token occurs once.
    pub closed spec fn wf(&self) -> bool {
        unique_tokens(self@)
    }

    /// An empty ledger.
    pub fn new() -> (r: DropLedger)
        ensures
            r.wf(),
            r@ == Seq::<TokenRecord>::empty(),
    {
        let r = DropLedger { entries: Vec::new() };
        assert(r@ =~= Seq::<TokenRecord>::empty());
        r
    }

    /// The number of outstanding tokens.
    pub fn len(&self) -> (n: usize)
        ensures
            n == self@.len(),
    {
        self.entries.len()
    }

    fn position(&self, token: DropToken) -> (r: Option<usize>)
        ensures
            match r {
                Some(i) => i < self@.len() && self@[i as int].0 == token.0,
                None => !is_outstanding(self@, token.0),
            },
    {
        let mut i: usize = 0;
        while i < self.entries.len()
            invariant
                i <= self@.len(),
                self@.len() == self.entries@.len(),
                forall|k: int| 0 <= k < i ==> self@[k].0 != token.0,
            decreases self.entries.len() - i,
        {
            if self.entries[i].token.0 == token.0 {
                return Some(i);
            }
            i += 1;
        }
        None
    }

    /// Whether `token` is outstanding.
    pub fn contains(&self, token: DropToken) -> (r: bool)
        ensures
            r == is_outstanding(self@, token.0),
    {
        self.position(token).is_some()
    }

    /// How many outstanding tokens refer to `segment`.
    pub fn holders_of(&self, segment: &SharedMemoryId) -> (n: usize)
        ensures
            n == holders(self@, segment@),
    {
        let mut n: usize = 0;
        let mut i: usize = 0;
        while i < self.entries.len()
            invariant
                i <= self@.len(),
                self@.len() == self.entries@.len(),
                n <= i,
                n == holders(self@.take(i as int), segment@),
            decreases self.entries.len() - i,
        {
            assert(self@.take(i + 1).drop_last() =~= self@.take(i as int));
            if self.entries[i].segment == *segment {
                n += 1;
            }
            i += 1;
        }
        assert(self@.take(i as int) =~= self@);
        n
    }

    /// Records that `consumer` holds `token` for `segment`. A token that is
    /// already outstanding is refused and nothing changes.
    pub fn issue(&mut self, token: DropToken, segment: &SharedMemoryId, consumer: &NodeId) -> (r: Result<(), LedgerError>)
        requires
            old(self).wf(),
        ensures
            final(self).wf(),
            r is Err <==> is_outstanding(old(self)@, token.0),
            r is Err ==> r == Err::<(), LedgerError>(LedgerError::TokenInUse) && final(self)@ == old(self)@,
            r is Ok ==> final(self)@ == old(self)@.push((token.0, segment@, consumer@)),
    {
        if self.contains(token) {
            return Err(LedgerError::TokenInUse);
        }
        let e = Outstanding { token, segment: segment.clone(), consumer: consumer.clone() };
        self.entries.push(e);
        assert(self@ =~= old(self)@.push((token.0, segment@, consumer@)));
        Ok(())
    }

    /// Retires `token`. Returns the segment it referred to when no other
    /// token still refers to it, that is when the segment may now be freed.
    pub fn retire(&mut self, token: DropToken) -> (r: Result<Option<SharedMemoryId>, LedgerError>)
        requires
            old(self).wf(),
        ensures
            final(self).wf(),
            r is Err <==> !is_outstanding(old(self)@, token.0),
            r is Err ==> r == Err::<Option<SharedMemoryId>, LedgerError>(LedgerError::UnknownToken) && final(self)@ == old(self)@,
            r is Ok ==> exists|i: int| {
                &&& 0 <= i < old(self)@.len()
                &&& old(self)@[i].0 == token.0
                &&& final(self)@ == old(self)@.remove(i)
                &&& (r->Ok_0 is Some <==> holders(final(self)@, old(self)@[i].1) == 0)
                &&& (r->Ok_0 is Some ==> r->Ok_0->Some_0@ == old(self)@[i].1)
            },
            r is Ok ==> !is_outstanding(final(self)@, token.0),
    {
        match self.position(token) {
            None => Err(LedgerError::UnknownToken),
            Some(i) => {
                proof {
                    lemma_unique_remove(self@, i as int);
                }
                let e = self.entries.remove(i);
                assert(self@ =~= old(self)@.remove(i as int));
                let n = self.holders_of(&e.segment);
                if n == 0 {
                    Ok(Some(e.segment))
                } else {
                    Ok(None)
                }
            }
        }
    }
    /// Retires every token that `consumer` holds, as when it disconnects or
    /// stops without handing them back. Returns, once each, the segments that
    /// it held and that no token refers to any more.
    pub fn release_consumer(&mut self, consumer: &NodeId) -> (freed: Vec<SharedMemoryId>)
        requires
            old(self).wf(),
        ensures
            final(self).wf(),
            final(self)@ == without_consumer(old(self)@, consumer@),
            forall|seg: Seq<char>| #[trigger] handles(freed@).contains(seg) <==>
                (held_by(old(self)@, seg, consumer@) && holders(final(self)@, seg) == 0),
            handles(freed@).no_duplicates(),
    {
        let ghost s = old(self)@;
        let ghost c = consumer@;
        let mut all: Vec<Outstanding> = Vec::new();
        std::mem::swap(&mut all, &mut self.entries);
        assert(all@.map_values(|e: Outstanding| e@) == s);
        let mut dropped: Vec<SharedMemoryId> = Vec::new();
        let mut i: usize = 0;
        while i < all.len()
            invariant
                i <= all@.len(),
                c == consumer@,
                all@.map_values(|e: Outstanding| e@) == s,
                self@ == without_consumer(s.take(i as int), c),
                forall|seg: Seq<char>| handles(dropped@).contains(seg) <==> held_by(s.take(i as int), seg, c),
            decreases all.len() - i,
        {
            let ghost before = s.take(i as int);
            let ghost after = s.take(i + 1);
            assert(after.drop_last() =~= before);
            assert(s[i as int] == all@[i as int]@);
            let e = &all[i];
            assert(after[i as int] == s[i as int]);
            assert(e@ == s[i as int]);
            assert(e.consumer@ == after[i as int].2 && e.segment@ == after[i as int].1);
            if e.consumer == *consumer {
                let ghost old_dropped = handles(dropped@);
                dropped.push(e.segment.clone());
                assert(handles(dropped@) =~= old_dropped.push(e.segment@));
                assert forall|seg: Seq<char>| handles(dropped@).contains(seg) <==> held_by(after, seg, c) by {
                    if held_by(after, seg, c) {
                        let k = choose|k: int| 0 <= k < after.len() && after[k].1 == seg && after[k].2 == c;
                        if k < i {
                            assert(before[k] == after[k]);
                            assert(held_by(before, seg, c));
                            assert(old_dropped.contains(seg));
                            let m = choose|m: int| 0 <= m < old_dropped.len() && old_dropped[m] == seg;
                            assert(handles(dropped@)[m] == seg);
                        } else {
                            assert(handles(dropped@)[old_dropped.len() as int] == seg);
                        }
                    }
                    if handles(dropped@).contains(seg) {
                        let m = choose|m: int| 0 <= m < handles(dropped@).len() && handles(dropped@)[m] == seg;
                        if m < old_dropped.len() {
                            assert(old_dropped[m] == seg);
                            assert(old_dropped.contains(seg));
                            assert(held_by(before, seg, c));
                            let k = choose|k: int| 0 <= k < before.len() && before[k].1 == seg && before[k].2 == c;
                            assert(after[k] == before[k]);
                        } else {
                            assert(handles(dropped@)[m] == e.segment@);
                            assert(after[i as int].1 == seg && after[i as int].2 == c);
                        }
                    }
                }
            } else {
                let ghost old_kept = self@;
                let kept = Outstanding { token: e.token, segment: e.segment.clone(), consumer: e.consumer.clone() };
                self.entries.push(kept);
                assert(self@ =~= old_kept.push(s[i as int]));
                assert forall|seg: Seq<char>| held_by(after, seg, c) ==> held_by(before, seg, c) by {
                    if held_by(after, seg, c) {
                        let k = choose|k: int| 0 <= k < after.len() && after[k].1 == seg && after[k].2 == c;
                        assert(k != i);
                        assert(before[k] == after[k]);
                    }
                }
                assert forall|seg: Seq<char>| held_by(before, seg, c) ==> held_by(after, seg, c) by {
                    if held_by(before, seg, c) {
                        let k = choose|k: int| 0 <= k < before.len() && before[k].1 == seg && before[k].2 == c;
                        assert(before[k] == after[k]);
                    }
                }
            }
            i += 1;
        }
        assert(s.take(i as int) =~= s);
        proof {
            lemma_release_consumer_retires_all(s, c);
        }
        let mut freed: Vec<SharedMemoryId> = Vec::new();
        let mut j: usize = 0;
        while j < dropped.len()
            invariant
                j <= dropped@.len(),
                self@ == without_consumer(s, c),
                forall|seg: Seq<char>| handles(dropped@).contains(seg) <==> held_by(s, seg, c),
                forall|seg: Seq<char>| #[trigger] handles(freed@).contains(seg) <==>
                    (handles(dropped@).take(j as int).contains(seg) && holders(self@, seg) == 0),
                handles(freed@).no_duplicates(),
            decreases dropped.len() - j,
        {
            let ghost prev = handles(dropped@).take(j as int);
            let ghost next = handles(dropped@).take(j + 1);
            assert(next =~= prev.push(dropped@[j as int]@));
            let n = self.holders_of(&dropped[j]);
            let seen = contains_handle(&freed, &dropped[j]);
            let ghost h = dropped@[j as int]@;
            let ghost old_freed = handles(freed@);
            if n == 0 && !seen {
                freed.push(dropped[j].clone());
                assert(handles(freed@) =~= old_freed.push(h));
                assert(handles(freed@)[old_freed.len() as int] == h);
            }
            assert forall|seg: Seq<char>| #[trigger] handles(freed@).contains(seg) <==>
                (next.contains(seg) && holders(self@, seg) == 0) by {
                if next.contains(seg) {
                    let m = choose|m: int| 0 <= m < next.len() && next[m] == seg;
                    if m < j {
                        assert(prev[m] == seg);
                        assert(prev.contains(seg));
                    } else {
                        assert(seg == h);
                    }
                }
                if prev.contains(seg) {
                    let m = choose|m: int| 0 <= m < prev.len() && prev[m] == seg;
                    assert(next[m] == seg);
                }
                if handles(freed@).contains(seg) && seg != h {
                    let m = choose|m: int| 0 <= m < handles(freed@).len() && handles(freed@)[m] == seg;
                    assert(old_freed[m] == seg);
                    assert(old_freed.contains(seg));
                }
                if seg == h {
                    assert(next[j as int] == h);
                }
                if old_freed.contains(seg) {
                    let m = choose|m: int| 0 <= m < old_freed.len() && old_freed[m] == seg;
                    assert(handles(freed@)[m] == seg);
                }
            }
            j += 1;
        }
        assert(handles(dropped@).take(j as int) =~= handles(dropped@));
        freed
    }
    /// Hands `segment` to every consumer, `consumers[i]` under its own token
    /// `tokens[i]`, and returns what each consumer's input event carries.
    /// Refused, with nothing changed, unless the tokens are distinct and none
    /// is outstanding.
    pub fn share_segment(
        &mut self,
        segment: &SharedMemoryId,
        len: usize,
        consumers: &Vec<NodeId>,
        tokens: &Vec<DropToken>,
    ) -> (r: Result<Vec<SharedMemoryInput>, LedgerError>)
        requires
            old(self).wf(),
            consumers@.len() == tokens@.len(),
        ensures
            final(self).wf(),
            r is Ok <==> fresh_tokens(old(self)@, tokens@),
            r is Err ==> r == Err::<Vec<SharedMemoryInput>, LedgerError>(LedgerError::TokenInUse) && final(self)@ == old(self)@,
            r is Ok ==> final(self)@ == old(self)@ + share_records(segment@, consumers@, tokens@),
            r is Ok ==> r->Ok_0@.len() == tokens@.len() && forall|i: int| 0 <= i < tokens@.len() ==> {
                &&& (#[trigger] r->Ok_0@[i]).shared_memory_id@ == segment@
                &&& r->Ok_0@[i].len == len
                &&& r->Ok_0@[i].drop_token == tokens@[i]
            },
    {
        let mut i: usize = 0;
        while i < tokens.len()
            invariant
                i <= tokens@.len(),
                self@ == old(self)@,
                self.wf(),
                forall|k: int| 0 <= k < i ==> !is_outstanding(self@, #[trigger] tokens@[k].0),
                forall|a: int, b: int| 0 <= a < b < i ==> tokens@[a].0 != tokens@[b].0,
            decreases tokens.len() - i,
        {
            if self.contains(tokens[i]) {
                return Err(LedgerError::TokenInUse);
            }
            let mut j: usize = 0;
            while j < i
                invariant
                    j <= i < tokens@.len(),
                    self.wf(),
                    self@ == old(self)@,
                    forall|a: int| 0 <= a < j ==> tokens@[a].0 != tokens@[i as int].0,
                decreases i - j,
            {
                if tokens[j].0 == tokens[i].0 {
                    return Err(LedgerError::TokenInUse);
                }
                j += 1;
            }
            i += 1;
        }
        let ghost start = self@;
        let mut out: Vec<SharedMemoryInput> = Vec::new();
        let mut i: usize = 0;
        while i < tokens.len()
            invariant
                i <= tokens@.len(),
                consumers@.len() == tokens@.len(),
                fresh_tokens(start, tokens@),
                self.wf(),
                self@ == start + share_records(segment@, consumers@, tokens@).take(i as int),
                out@.len() == i,
                forall|k: int| 0 <= k < i ==> {
                    &&& (#[trigger] out@[k]).shared_memory_id@ == segment@
                    &&& out@[k].len == len
                    &&& out@[k].drop_token == tokens@[k]
                },
            decreases tokens.len() - i,
        {
            let ghost recs = share_records(segment@, consumers@, tokens@);
            assert(!is_outstanding(self@, tokens@[i as int].0)) by {
                if is_outstanding(self@, tokens@[i as int].0) {
                    let k = choose|k: int| 0 <= k < self@.len() && self@[k].0 == tokens@[i as int].0;
                    if k < start.len() {
                        assert(start[k] == self@[k]);
                        assert(is_outstanding(start, tokens@[i as int].0));
                    } else {
                        assert(self@[k] == recs[k - start.len()]);
                    }
                }
            }
            let res = self.issue(tokens[i], segment, &consumers[i]);
            assert(recs.take(i + 1) =~= recs.take(i as int).push(recs[i as int]));
            assert(self@ =~= start + recs.take(i + 1));
            out.push(SharedMemoryInput { shared_memory_id: segment.clone(), len, drop_token: tokens[i] });
            i += 1;
        }
        assert(share_records(segment@, consumers@, tokens@).take(i as int) =~= share_records(segment@, consumers@, tokens@));
        Ok(out)
    }
    /// Retires the tokens that a node hands back with its next event request;
    /// a token that is not outstanding is passed over. Returns the segments
    /// that one of these tokens referred to and that no token refers to any
    /// more.
    pub fn retire_tokens(&mut self, tokens: &Vec<DropToken>) -> (freed: Vec<SharedMemoryId>)
        requires
            old(self).wf(),
        ensures
            final(self).wf(),
            forall|r: TokenRecord| #[trigger] final(self)@.contains(r) <==> (old(self)@.contains(r) && !listed(tokens@, r.0)),
            forall|seg: Seq<char>| #[trigger] handles(freed@).contains(seg) <==>
                (released_from(old(self)@, tokens@, seg) && holders(final(self)@, seg) == 0),
    {
        let ghost start = self@;
        let mut freed: Vec<SharedMemoryId> = Vec::new();
        let mut k: usize = 0;
        assert forall|r: TokenRecord| self@.contains(r) implies !listed(tokens@.take(0), r.0) by {}
        while k < tokens.len()
            invariant
                self.wf(),
                k <= tokens@.len(),
                forall|r: TokenRecord| #[trigger] self@.contains(r) <==> (start.contains(r) && !listed(tokens@.take(k as int), r.0)),
                forall|seg: Seq<char>| #[trigger] handles(freed@).contains(seg) ==>
                    (released_from(start, tokens@.take(k as int), seg) && holders(self@, seg) == 0),
                forall|seg: Seq<char>| released_from(start, tokens@.take(k as int), seg) && holders(self@, seg) == 0
                    ==> #[trigger] handles(freed@).contains(seg),
            decreases tokens.len() - k,
        {
            let ghost cur = self@;
            let ghost prev = tokens@.take(k as int);
            let ghost next = tokens@.take(k + 1);
            let ghost t = tokens@[k as int].0;
            let ghost old_freed = handles(freed@);
            proof {
                lemma_listed_step(tokens@, k as int);
            }
            assert forall|seg: Seq<char>| released_from(start, prev, seg) ==> #[trigger] released_from(start, next, seg) by {
                if released_from(start, prev, seg) {
                    let i = choose|i: int| 0 <= i < start.len() && start[i].1 == seg && listed(prev, start[i].0);
                    assert(listed(next, start[i].0));
                }
            }
            let res = self.retire(tokens[k]);
            match res {
                Err(_) => {
                    assert forall|r: TokenRecord| #[trigger] self@.contains(r) <==> (start.contains(r) && !listed(next, r.0)) by {
                        if cur.contains(r) && r.0 == t {
                            let m = choose|m: int| 0 <= m < cur.len() && cur[m] == r;
                            assert(is_outstanding(cur, t));
                        }
                    }
                    assert forall|seg: Seq<char>| released_from(start, next, seg) && holders(self@, seg) == 0
                        implies #[trigger] handles(freed@).contains(seg) by {
                        let i = choose|i: int| 0 <= i < start.len() && start[i].1 == seg && listed(next, start[i].0);
                        if !listed(prev, start[i].0) {
                            assert(start.contains(start[i]));
                            assert(cur.contains(start[i]));
                            let m = choose|m: int| 0 <= m < cur.len() && cur[m] == start[i];
                            assert(is_outstanding(cur, t));
                        }
                        assert(released_from(start, prev, seg));
                    }
                },
                Ok(released) => {
                    let ghost i = choose|i: int| {
                        &&& 0 <= i < cur.len()
                        &&& cur[i].0 == t
                        &&& self@ == cur.remove(i)
                        &&& (released is Some <==> holders(self@, cur[i].1) == 0)
                        &&& (released is Some ==> released->Some_0@ == cur[i].1)
                    };
                    let ghost rec = cur[i];
                    proof {
                        lemma_remove_contains(cur, i);
                        lemma_segment_freed_by_last_token(cur, i);
                        assert(cur.contains(rec));
                        assert(start.contains(rec));
                        let j = choose|j: int| 0 <= j < start.len() && start[j] == rec;
                        assert(released_from(start, next, rec.1));
                    }
                    assert forall|r: TokenRecord| #[trigger] self@.contains(r) <==> (start.contains(r) && !listed(next, r.0)) by {
                        assert(self@.contains(r) <==> (cur.contains(r) && r.0 != t));
                    }
                    if let Some(seg) = released {
                        freed.push(seg);
                        assert(handles(freed@) =~= old_freed.push(rec.1));
                    }
                    assert forall|seg: Seq<char>| #[trigger] handles(freed@).contains(seg) ==>
                        (released_from(start, next, seg) && holders(self@, seg) == 0) by {
                        if handles(freed@).contains(seg) {
                            let m = choose|m: int| 0 <= m < handles(freed@).len() && handles(freed@)[m] == seg;
                            if m < old_freed.len() {
                                assert(old_freed[m] == seg);
                                assert(old_freed.contains(seg));
                            }
                        }
                    }
                    assert forall|seg: Seq<char>| released_from(start, next, seg) && holders(self@, seg) == 0
                        implies #[trigger] handles(freed@).contains(seg) by {
                        let j = choose|j: int| 0 <= j < start.len() && start[j].1 == seg && listed(next, start[j].0);
                        if seg == rec.1 {
                            assert(handles(freed@)[old_freed.len() as int] == seg);
                        } else {
                            if !listed(prev, start[j].0) {
                                assert(start[j].0 == t);
                                assert(start.contains(start[j]));
                                assert(cur.contains(start[j]));
                                let m = choose|m: int| 0 <= m < cur.len() && cur[m] == start[j];
                                assert(m == i);
                            }
                            assert(released_from(start, prev, seg));
                            assert(old_freed.contains(seg));
                            let m = choose|m: int| 0 <= m < old_freed.len() && old_freed[m] == seg;
                            assert(handles(freed@)[m] == seg);
                        }
                    }
                },
            }
            k += 1;
        }
        assert(tokens@.take(k as int) =~= tokens@);
        freed
    }
}

} // verus!
