//! Citation keys, ordered key sets, and the rendered-citation map.
//!
//! A key is the normalized text between `[^@` and `]` in an inline marker.
//! A comment block keeps its referenced keys as a set ordered by code-point
//! comparison, so that footnotes come out in a stable order.  The citation
//! map carries the rendered text for each key, produced once per batch by an
//! external renderer and then shared read-only by every file.

use vstd::prelude::*;
use vstd::string::StrSliceExecFns;

use crate::pattern::close_pos;
use crate::pattern::lemma_close_pos_unique;
use crate::pattern::lemma_lex_lt_total;
use crate::pattern::lemma_lex_lt_trans;
use crate::pattern::lemma_lex_lt_irrefl;
use crate::pattern::lex_lt;
use crate::pattern::scan_keys;
use crate::pattern::str_lt;

verus! {

/// An immutable citation identifier: the normalized text found inside an
/// inline citation marker.
#[derive(Debug, Clone, PartialEq, PartialOrd, Eq, Ord, Hash)]
pub struct Key(pub String);

impl View for Key {
    type V = Seq<char>;

    open spec fn view(&self) -> Seq<char> {
        self.0@
    }
}

impl DeepView for Key {
    type V = Seq<char>;

    open spec fn deep_view(&self) -> Seq<char> {
        self.0@
    }
}

impl Key {
    /// A copy of this key with the same text.
    pub fn duplicate(&self) -> (k: Key)
        ensures
            k@ == self@,
    {
        Key(self.0.clone())
    }
}

/// Why a citation style could not be used.
#[derive(Debug, Clone, PartialEq, Eq)]
pub enum StyleError {
    /// No archived style of that name exists.
    InvalidStyle,
    /// The style depends on citation order across passes and cannot be
    /// rendered in a single independent pass.
    DependentStyle,
}

impl StyleError {
    /// A human-readable description of the error.
    pub fn message(&self) -> (m: String)
        ensures
            self is InvalidStyle ==> m@ == "invalid style name"@,
            self is DependentStyle ==> m@ == "style is not independent"@,
    {
        match self {
            StyleError::InvalidStyle => "invalid style name".to_owned(),
            StyleError::DependentStyle => "style is not independent".to_owned(),
        }
    }
}

/// Strictly increasing in code-point order: sorted and duplicate-free.
pub open spec fn sorted_strict(ks: Seq<Seq<char>>) -> bool {
    forall|i: int, j: int| 0 <= i < j < ks.len() ==> lex_lt(#[trigger] ks[i], #[trigger] ks[j])
}

/// Insertion of `k` into an ordered key sequence: keeps order, drops
/// duplicates.
pub open spec fn sorted_insert(ks: Seq<Seq<char>>, k: Seq<char>) -> Seq<Seq<char>>
    decreases ks.len(),
{
    if ks.len() == 0 {
        seq![k]
    } else if lex_lt(ks[0], k) {
        seq![ks[0]] + sorted_insert(ks.skip(1), k)
    } else if ks[0] == k {
        ks
    } else {
        seq![k] + ks
    }
}

/// Insertion of every key of `new`, in order, into an ordered key sequence.
pub open spec fn add_keys(ks: Seq<Seq<char>>, new: Seq<Seq<char>>) -> Seq<Seq<char>>
    decreases new.len(),
{
    if new.len() == 0 {
        ks
    } else {
        add_keys(sorted_insert(ks, new[0]), new.skip(1))
    }
}

/// Where `sorted_insert` puts the new key: at the first position whose
/// element is not below it, replacing nothing when the element there equals
/// it.  Order and freedom from duplicates are preserved.
pub proof fn lemma_sorted_insert_at(ks: Seq<Seq<char>>, k: Seq<char>, p: int)
    requires
        sorted_strict(ks),
        0 <= p <= ks.len(),
        forall|j: int| 0 <= j < p ==> lex_lt(#[trigger] ks[j], k),
        p < ks.len() ==> !lex_lt(ks[p], k),
    ensures
        p < ks.len() && ks[p] == k ==> sorted_insert(ks, k) == ks,
        !(p < ks.len() && ks[p] == k) ==> sorted_insert(ks, k) == ks.take(p) + seq![k] + ks.skip(
            p,
        ),
        sorted_strict(sorted_insert(ks, k)),
    decreases p,
{
    if p == 0 {
        if ks.len() == 0 {
            assert(sorted_insert(ks, k) =~= seq![k] + ks);
        } else {
            lemma_lex_lt_irrefl(k);
            if ks[0] == k {
            } else {
                assert(sorted_insert(ks, k) == seq![k] + ks);
            }
        }
        if !(p < ks.len() && ks[p] == k) {
            assert(ks.take(0) + seq![k] + ks.skip(0) =~= seq![k] + ks);
            // order: k goes below every element of ks
            if ks.len() > 0 {
                lemma_lex_lt_total(k, ks[0]);
            }
            let r = seq![k] + ks;
            assert forall|i: int, j: int| 0 <= i < j < r.len() implies lex_lt(
                #[trigger] r[i],
                #[trigger] r[j],
            ) by {
                if i == 0 {
                    if j > 1 {
                        lemma_lex_lt_trans(k, ks[0], ks[j - 1]);
                    }
                }
            }
        }
    } else {
        assert(lex_lt(ks[0], k));
        let tail = ks.skip(1);
        assert forall|j: int| 0 <= j < p - 1 implies lex_lt(#[trigger] tail[j], k) by {
            assert(tail[j] == ks[j + 1]);
        }
        assert forall|i: int, j: int| 0 <= i < j < tail.len() implies lex_lt(
            #[trigger] tail[i],
            #[trigger] tail[j],
        ) by {
            assert(tail[i] == ks[i + 1]);
            assert(tail[j] == ks[j + 1]);
        }
        if p - 1 < tail.len() {
            assert(tail[p - 1] == ks[p]);
        }
        lemma_sorted_insert_at(tail, k, p - 1);
        assert(sorted_insert(ks, k) == seq![ks[0]] + sorted_insert(tail, k));
        if p < ks.len() && ks[p] == k {
            assert(sorted_insert(tail, k) == tail);
            assert(seq![ks[0]] + tail =~= ks);
        } else {
            assert(sorted_insert(tail, k) == tail.take(p - 1) + seq![k] + tail.skip(p - 1));
            assert(seq![ks[0]] + (tail.take(p - 1) + seq![k] + tail.skip(p - 1)) =~= ks.take(p)
                + seq![k] + ks.skip(p));
            // order: prior elements stay below k, k stays below the rest
            let r = ks.take(p) + seq![k] + ks.skip(p);
            if p < ks.len() {
                lemma_lex_lt_total(k, ks[p]);
            }
            assert forall|i: int, j: int| 0 <= i < j < r.len() implies lex_lt(
                #[trigger] r[i],
                #[trigger] r[j],
            ) by {
                if j < p {
                } else if j == p {
                    assert(r[i] == ks[i]);
                } else {
                    assert(r[j] == ks[j - 1]);
                    if i < p {
                        assert(r[i] == ks[i]);
                    } else if i == p {
                        if j - 1 > p {
                            lemma_lex_lt_trans(k, ks[p], ks[j - 1]);
                        }
                    } else {
                        assert(r[i] == ks[i - 1]);
                    }
                }
            }
        }
    }
}

/// The keys referenced by a comment block, kept sorted by code point and
/// free of duplicates.
pub struct KeySet {
    keys: Vec<Key>,
}

impl View for KeySet {
    type V = Seq<Seq<char>>;

    closed spec fn view(&self) -> Seq<Seq<char>> {
        self.keys.deep_view()
    }
}

impl KeySet {
    #[verifier::type_invariant]
    spec fn inv(&self) -> bool {
        sorted_strict(self@)
    }

    /// The empty key set.
    pub fn new() -> (s: Self)
        ensures
            s@ == Seq::<Seq<char>>::empty(),
    {
        let s = KeySet { keys: Vec::new() };
        proof {
            assert(s@ =~= Seq::<Seq<char>>::empty());
        }
        s
    }

    /// How many distinct keys the set holds.
    pub fn len(&self) -> (n: usize)
        ensures
            n == self@.len(),
    {
        self.keys.len()
    }

    /// The key at position `i` in sorted order.
    pub fn get(&self, i: usize) -> (k: &Key)
        requires
            i < self@.len(),
        ensures
            k@ == self@[i as int],
    {
        &self.keys[i]
    }

    /// Add a key, keeping the set sorted and duplicate-free.
    pub fn insert(&mut self, key: Key)
        ensures
            final(self)@ == sorted_insert(old(self)@, key@),
    {
        proof {
            use_type_invariant(&*self);
        }
        let ghost old_view = self@;
        let mut ks: Vec<Key> = Vec::new();
        core::mem::swap(&mut ks, &mut self.keys);
        proof {
            assert(ks.deep_view() =~= old_view);
        }
        let n = ks.len();
        let mut p: usize = 0;
        loop
            invariant
                p <= n,
                n == ks.len(),
                ks.deep_view() == old_view,
                forall|j: int| 0 <= j < p ==> lex_lt(#[trigger] old_view[j], key@),
            ensures
                p <= n,
                forall|j: int| 0 <= j < p ==> lex_lt(#[trigger] old_view[j], key@),
                p < n ==> !lex_lt(old_view[p as int], key@),
            decreases n - p,
        {
            if p == n {
                break;
            }
            if !str_lt(ks[p].0.as_str(), key.0.as_str()) {
                break;
            }
            p = p + 1;
        }
        proof {
            lemma_sorted_insert_at(old_view, key@, p as int);
        }
        let mut already = false;
        if p < n {
            if ks[p].0 == key.0 {
                already = true;
            }
        }
        if already {
            proof {
                assert(old_view[p as int] =~= key@);
            }
        } else {
            ks.insert(p, key);
            proof {
                assert(ks.deep_view() =~= old_view.take(p as int) + seq![key@] + old_view.skip(
                    p as int,
                ));
            }
        }
        self.keys = ks;
    }
}

/// The mapping built by folding a sequence of rendered pairs from the left;
/// a later pair for the same key shadows an earlier one.
pub open spec fn pairs_map(ps: Seq<(Seq<char>, Seq<char>)>) -> Map<Seq<char>, Seq<char>>
    decreases ps.len(),
{
    if ps.len() == 0 {
        Map::empty()
    } else {
        pairs_map(ps.drop_last()).insert(ps.last().0, ps.last().1)
    }
}

pub proof fn lemma_pairs_map_contains(ps: Seq<(Seq<char>, Seq<char>)>, k: Seq<char>)
    ensures
        pairs_map(ps).contains_key(k) <==> exists|i: int|
            0 <= i < ps.len() && (#[trigger] ps[i]).0 == k,
    decreases ps.len(),
{
    if ps.len() == 0 {
    } else {
        lemma_pairs_map_contains(ps.drop_last(), k);
        if ps.last().0 == k {
        } else {
            if pairs_map(ps).contains_key(k) {
                let i = choose|i: int| 0 <= i < ps.drop_last().len() && (#[trigger] ps.drop_last(
                )[i]).0 == k;
                assert(ps[i].0 == k);
            }
            if exists|i: int| 0 <= i < ps.len() && (#[trigger] ps[i]).0 == k {
                let i = choose|i: int| 0 <= i < ps.len() && (#[trigger] ps[i]).0 == k;
                assert(i < ps.len() - 1);
                assert(ps.drop_last()[i].0 == k);
            }
        }
    }
}

pub proof fn lemma_pairs_map_value(ps: Seq<(Seq<char>, Seq<char>)>, i: int)
    requires
        0 <= i < ps.len(),
        forall|j: int| i < j < ps.len() ==> (#[trigger] ps[j]).0 != ps[i].0,
    ensures
        pairs_map(ps).contains_key(ps[i].0),
        pairs_map(ps)[ps[i].0] == ps[i].1,
    decreases ps.len(),
{
    if i == ps.len() - 1 {
    } else {
        assert forall|j: int| i < j < ps.drop_last().len() implies (#[trigger] ps.drop_last(
        )[j]).0 != ps.drop_last()[i].0 by {
            assert(ps.drop_last()[j] == ps[j]);
        }
        lemma_pairs_map_value(ps.drop_last(), i);
        assert(ps.last().0 != ps[i].0);
    }
}

/// The rendered citation text for each key, produced once per batch and
/// then only read.
pub struct CitationMap {
    entries: Vec<(Key, String)>,
}

impl View for CitationMap {
    type V = Map<Seq<char>, Seq<char>>;

    closed spec fn view(&self) -> Map<Seq<char>, Seq<char>> {
        pairs_map(self.entries.deep_view())
    }
}

impl CitationMap {
    /// The empty map.
    pub fn new() -> (m: Self)
        ensures
            m@ == Map::<Seq<char>, Seq<char>>::empty(),
    {
        let m = CitationMap { entries: Vec::new() };
        proof {
            assert(m.entries.deep_view() =~= Seq::<(Seq<char>, Seq<char>)>::empty());
        }
        m
    }

    /// Record the rendered text for a key, replacing any earlier text.
    pub fn insert(&mut self, key: Key, text: String)
        ensures
            final(self)@ == old(self)@.insert(key@, text@),
    {
        let ghost old_pairs = self.entries.deep_view();
        self.entries.push((key, text));
        proof {
            assert(self.entries.deep_view() =~= old_pairs.push(
                (self.entries@.last().0@, self.entries@.last().1@),
            ));
            assert(self.entries.deep_view().drop_last() =~= old_pairs);
        }
    }

    /// The rendered text for a key, if the key has one.
    pub fn get(&self, key: &Key) -> (r: Option<&String>)
        ensures
            match r {
                Some(t) => self@.contains_key(key@) && t@ == self@[key@],
                None => !self@.contains_key(key@),
            },
    {
        let ghost ps = self.entries.deep_view();
        let n = self.entries.len();
        let mut i = n;
        loop
            invariant
                i <= n,
                n == self.entries@.len(),
                ps == self.entries.deep_view(),
                forall|j: int| i <= j < n ==> (#[trigger] ps[j]).0 != key@,
            ensures
                i == 0,
                forall|j: int| 0 <= j < n ==> (#[trigger] ps[j]).0 != key@,
            decreases i,
        {
            if i == 0 {
                break;
            }
            i = i - 1;
            if self.entries[i].0.0 == key.0 {
                proof {
                    lemma_pairs_map_value(ps, i as int);
                }
                return Some(&self.entries[i].1);
            }
        }
        proof {
            lemma_pairs_map_contains(ps, key@);
        }
        None
    }
}

/// Every key referenced anywhere in the raw text, in order of appearance,
/// duplicates included; footnote-definition lines are not excluded here.
pub fn scan_for_key(file: &str) -> (r: Vec<Key>)
    ensures
        r.deep_view() == scan_keys(file@),
{
    let n = file.unicode_len();
    let mut r: Vec<Key> = Vec::new();
    let mut i: usize = 0;
    proof {
        assert(file@.skip(0) =~= file@);
        assert(r.deep_view() =~= Seq::<Seq<char>>::empty());
    }
    while n - i >= 4
        invariant
            i <= n,
            n == file@.len(),
            scan_keys(file@) == r.deep_view() + scan_keys(file@.skip(i as int)),
        decreases n - i,
    {
        let ghost suffix = file@.skip(i as int);
        if file.get_char(i) == '[' && file.get_char(i + 1) == '^' && file.get_char(i + 2) == '@' {
            proof {
                assert(suffix[0] == file@[i as int]);
                assert(suffix[1] == file@[i + 1]);
                assert(suffix[2] == file@[i + 2]);
            }
            // look for the closing bracket, giving up at a line break
            let mut j = i + 3;
            let mut close: usize = 0;
            let mut found = false;
            loop
                invariant
                    i + 3 <= j <= n,
                    n == file@.len(),
                    !found ==> forall|m: int|
                        i + 3 <= m < j ==> #[trigger] file@[m] != ']' && file@[m] != '\n',
                    found ==> i + 3 <= close < n && file@[close as int] == ']',
                    found ==> forall|m: int|
                        i + 3 <= m < close ==> #[trigger] file@[m] != ']' && file@[m] != '\n',
                    found ==> j == close,
                ensures
                    found ==> i + 3 <= close < n && file@[close as int] == ']',
                    found ==> forall|m: int|
                        i + 3 <= m < close ==> #[trigger] file@[m] != ']' && file@[m] != '\n',
                    !found ==> (j == n || file@[j as int] == '\n'),
                    !found ==> forall|m: int|
                        i + 3 <= m < j ==> #[trigger] file@[m] != ']' && file@[m] != '\n',
                decreases n - j + if found {
                    0int
                } else {
                    1int
                },
            {
                if found {
                    break;
                }
                if j == n {
                    break;
                }
                let c = file.get_char(j);
                if c == ']' {
                    close = j;
                    found = true;
                } else if c == '\n' {
                    break;
                } else {
                    j = j + 1;
                }
            }
            proof {
                let t = suffix.skip(3);
                assert(t =~= file@.skip(i + 3));
                if found {
                    assert forall|m: int| 0 <= m < close - i - 3 implies #[trigger] t[m] != ']'
                        && t[m] != '\n' by {
                        assert(t[m] == file@[m + i + 3]);
                    }
                    assert(t[close - i - 3] == file@[close as int]);
                    lemma_close_pos_unique(t, close - i - 3);
                    assert(close_pos(t) == close - i - 3);
                } else {
                    assert forall|m: int| 0 <= m < j - i - 3 implies #[trigger] t[m] != ']' && t[m]
                        != '\n' by {
                        assert(t[m] == file@[m + i + 3]);
                    }
                    if j < n {
                        assert(t[j - i - 3] == file@[j as int]);
                    }
                    lemma_close_pos_unique(t, j - i - 3);
                    assert(close_pos(t) == -1);
                }
            }
            if found {
                let text = file.substring_char(i + 3, close);
                let key = Key(text.to_owned());
                let ghost prev = r.deep_view();
                r.push(key);
                proof {
                    assert(r.deep_view() =~= prev.push(file@.subrange(i + 3, close as int)));
                    let t = suffix.skip(3);
                    let jj = close_pos(t);
                    assert(suffix.subrange(3, 3 + jj) =~= file@.subrange(i + 3, close as int));
                    assert(suffix.skip(4 + jj) =~= file@.skip(close + 1));
                    assert(scan_keys(suffix) == seq![suffix.subrange(3, 3 + jj)] + scan_keys(
                        suffix.skip(4 + jj),
                    ));
                    assert(prev + scan_keys(suffix) =~= r.deep_view() + scan_keys(
                        file@.skip(close + 1),
                    ));
                }
                i = close + 1;
            } else {
                proof {
                    assert(scan_keys(suffix) == scan_keys(suffix.skip(1)));
                    assert(suffix.skip(1) =~= file@.skip(i + 1));
                }
                i = i + 1;
            }
        } else {
            proof {
                assert(suffix[0] == file@[i as int]);
                assert(suffix[1] == file@[i + 1]);
                assert(suffix[2] == file@[i + 2]);
                assert(!crate::pattern::cite_open_at(suffix, 0));
                assert(scan_keys(suffix) == scan_keys(suffix.skip(1)));
                assert(suffix.skip(1) =~= file@.skip(i + 1));
            }
            i = i + 1;
        }
    }
    proof {
        assert(scan_keys(file@.skip(i as int)) =~= Seq::<Seq<char>>::empty());
        assert(r.deep_view() + Seq::<Seq<char>>::empty() =~= r.deep_view());
    }
    r
}


/// The keys of a whole batch: every text's scanned keys, folded in order
/// into one sorted set.
pub open spec fn batch_accumulate(acc: Seq<Seq<char>>, ts: Seq<Seq<char>>) -> Seq<Seq<char>>
    decreases ts.len(),
{
    if ts.len() == 0 {
        acc
    } else {
        batch_accumulate(add_keys(acc, scan_keys(ts[0])), ts.skip(1))
    }
}

/// The union of the per-text key scans, as one sorted duplicate-free set.
pub open spec fn batch_keys(ts: Seq<Seq<char>>) -> Seq<Seq<char>> {
    batch_accumulate(seq![], ts)
}

/// The one key set handed to the single renderer call of a batch: every
/// key referenced anywhere in any of the given texts.
pub fn collect_keys(texts: &Vec<String>) -> (ks: KeySet)
    ensures
        ks@ == batch_keys(texts.deep_view()),
{
    let ghost tv = texts.deep_view();
    let mut out = KeySet::new();
    let n = texts.len();
    let mut i: usize = 0;
    proof {
        assert(tv.skip(0) =~= tv);
        assert(out@ =~= Seq::<Seq<char>>::empty());
    }
    while i < n
        invariant
            i <= n,
            n == texts@.len(),
            tv == texts.deep_view(),
            batch_accumulate(out@, tv.skip(i as int)) == batch_keys(tv),
        decreases n - i,
    {
        let ghost trest = tv.skip(i as int);
        let found = scan_for_key(texts[i].as_str());
        let fcount = found.len();
        let mut u: usize = 0;
        proof {
            assert(trest[0] == tv[i as int]);
            assert(trest.skip(1) =~= tv.skip(i + 1));
            assert(found.deep_view().skip(0) =~= found.deep_view());
        }
        while u < fcount
            invariant
                u <= fcount,
                fcount == found.len(),
                found.deep_view() == scan_keys(tv[i as int]),
                0 <= i < tv.len(),
                tv == texts.deep_view(),
                batch_accumulate(add_keys(out@, found.deep_view().skip(u as int)), tv.skip(i + 1))
                    == batch_keys(tv),
            decreases fcount - u,
        {
            let ghost krest = found.deep_view().skip(u as int);
            let k = found[u].duplicate();
            out.insert(k);
            proof {
                assert(krest[0] == found.deep_view()[u as int]);
                assert(krest.skip(1) =~= found.deep_view().skip(u + 1));
            }
            u = u + 1;
        }
        proof {
            assert(found.deep_view().skip(fcount as int) =~= Seq::<Seq<char>>::empty());
        }
        i = i + 1;
    }
    proof {
        assert(tv.skip(n as int) =~= Seq::<Seq<char>>::empty());
    }
    out
}

} // verus!
