//! The integer side of the semantic index: hashing-trick token counts and
//! the registry of entity profiles.
use vstd::prelude::*;
use vstd::utf8::encode_utf8;
use crate::hashing::{fnv1a, spec_fnv1a};
use crate::text::{lemma_scan_marked_concat, alnum_flags, alnum_tokens, alphanumeric, lowercase, scan_marked, to_lowercase, tokens_of};

verus! {

/// Deterministic hashing-trick embedder: every token of a text falls into
/// one of `dim` buckets, chosen by the FNV-1a hash of its lowercase form.
pub struct HashEmbedder {
    pub dim: usize,
}

/// The bucket of a lowercase token: FNV-1a of its UTF-8 bytes, modulo
/// `dim`.
pub open spec fn key_bucket(dim: usize, key: Seq<char>) -> int {
    (spec_fnv1a(encode_utf8(key)) % (dim as u64)) as int
}

/// How many of the lowercase tokens `keys` fall into bucket `b`.
pub open spec fn bucket_count(dim: usize, keys: Seq<Seq<char>>, b: int) -> nat
    decreases keys.len(),
{
    if keys.len() == 0 {
        0
    } else {
        bucket_count(dim, keys.drop_last(), b) + if key_bucket(dim, keys.last()) == b {
            1nat
        } else {
            0nat
        }
    }
}

/// The bag `keys` projected onto `dim` buckets.
pub open spec fn histogram(dim: usize, keys: Seq<Seq<char>>) -> Seq<nat> {
    Seq::new(dim as nat, |b: int| bucket_count(dim, keys, b))
}

/// The lowercase forms of `toks`, in order.
pub open spec fn lowered(toks: Seq<Seq<char>>) -> Seq<Seq<char>> {
    toks.map_values(|t: Seq<char>| lowercase(t))
}

/// The bag of lowercase tokens of `text` projected onto `dim` buckets.
pub open spec fn token_histogram(dim: usize, text: Seq<char>) -> Seq<nat> {
    histogram(dim, lowered(alnum_tokens(text)))
}

/// The sum of `s`.
pub open spec fn total(s: Seq<nat>) -> nat
    decreases s.len(),
{
    if s.len() == 0 {
        0
    } else {
        total(s.drop_last()) + s.last()
    }
}

/// The number of `keys` in the buckets below `k`.
spec fn below(dim: usize, keys: Seq<Seq<char>>, k: int) -> nat
    decreases k,
{
    if k <= 0 {
        0
    } else {
        below(dim, keys, k - 1) + bucket_count(dim, keys, k - 1)
    }
}

proof fn lemma_below_push(dim: usize, keys: Seq<Seq<char>>, t: Seq<char>, k: int)
    requires
        k >= 0,
    ensures
        below(dim, keys.push(t), k) == below(dim, keys, k) + if 0 <= key_bucket(dim, t) < k {
            1nat
        } else {
            0nat
        },
    decreases k,
{
    if k > 0 {
        lemma_below_push(dim, keys, t, k - 1);
        assert(keys.push(t).drop_last() =~= keys);
    }
}

proof fn lemma_below_empty(dim: usize, keys: Seq<Seq<char>>, k: int)
    requires
        keys.len() == 0,
    ensures
        below(dim, keys, k) == 0,
    decreases k,
{
    if k > 0 {
        lemma_below_empty(dim, keys, k - 1);
    }
}

proof fn lemma_below_all(dim: usize, keys: Seq<Seq<char>>)
    requires
        dim > 0,
    ensures
        below(dim, keys, dim as int) == keys.len(),
    decreases keys.len(),
{
    if keys.len() == 0 {
        lemma_below_empty(dim, keys, dim as int);
    } else {
        lemma_below_all(dim, keys.drop_last());
        lemma_below_push(dim, keys.drop_last(), keys.last(), dim as int);
        assert(keys.drop_last().push(keys.last()) =~= keys);
    }
}

proof fn lemma_total_histogram(dim: usize, keys: Seq<Seq<char>>, k: int)
    requires
        0 <= k <= dim,
    ensures
        total(histogram(dim, keys).take(k)) == below(dim, keys, k),
    decreases k,
{
    if k > 0 {
        lemma_total_histogram(dim, keys, k - 1);
        assert(histogram(dim, keys).take(k).drop_last() =~= histogram(dim, keys).take(k - 1));
    }
}

/// Every token lands in exactly one bucket: the counts of a text add up to
/// its number of tokens.
pub proof fn lemma_histogram_total(dim: usize, text: Seq<char>)
    requires
        dim > 0,
    ensures
        total(token_histogram(dim, text)) == alnum_tokens(text).len(),
{
    let keys = lowered(alnum_tokens(text));
    lemma_total_histogram(dim, keys, dim as int);
    assert(histogram(dim, keys).take(dim as int) =~= histogram(dim, keys));
    lemma_below_all(dim, keys);
}

proof fn lemma_bucket_count_concat(dim: usize, t1: Seq<Seq<char>>, t2: Seq<Seq<char>>, b: int)
    ensures
        bucket_count(dim, t1 + t2, b) == bucket_count(dim, t1, b) + bucket_count(dim, t2, b),
    decreases t2.len(),
{
    if t2.len() == 0 {
        assert(t1 + t2 =~= t1);
    } else {
        lemma_bucket_count_concat(dim, t1, t2.drop_last(), b);
        assert((t1 + t2).drop_last() =~= t1 + t2.drop_last());
    }
}

proof fn lemma_multiset_empty(k1: Seq<Seq<char>>, k2: Seq<Seq<char>>)
    requires
        k1.to_multiset() =~= k2.to_multiset(),
        k1.len() == 0,
    ensures
        k2.len() == 0,
{
    broadcast use vstd::seq_lib::group_to_multiset_ensures;

    assert(k1.len() == k1.to_multiset().len());
    assert(k2.len() == k2.to_multiset().len());
}

proof fn lemma_multiset_last(k1: Seq<Seq<char>>, k2: Seq<Seq<char>>) -> (j: int)
    requires
        k1.to_multiset() =~= k2.to_multiset(),
        k1.len() > 0,
    ensures
        0 <= j < k2.len(),
        k2[j] == k1.last(),
        k1.drop_last().to_multiset() =~= k2.remove(j).to_multiset(),
{
    broadcast use vstd::seq_lib::group_to_multiset_ensures;
    broadcast use vstd::multiset::group_multiset_axioms;

    let x = k1.last();
    let r1 = k1.drop_last();
    assert(r1.push(x) =~= k1);
    assert(k1.to_multiset() =~= r1.to_multiset().insert(x));
    assert(k2.to_multiset().count(x) > 0);
    assert(k2.contains(x));
    let j = choose|j: int| 0 <= j < k2.len() && k2[j] == x;
    assert(k2.remove(j).to_multiset() =~= k2.to_multiset().remove(x));
    j
}

proof fn lemma_bucket_count_multiset(dim: usize, k1: Seq<Seq<char>>, k2: Seq<Seq<char>>, b: int)
    requires
        k1.to_multiset() =~= k2.to_multiset(),
    ensures
        bucket_count(dim, k1, b) == bucket_count(dim, k2, b),
    decreases k1.len(),
{
    if k1.len() == 0 {
        lemma_multiset_empty(k1, k2);
        assert(k2 =~= k1);
    } else {
        let x = k1.last();
        let r1 = k1.drop_last();
        let j = lemma_multiset_last(k1, k2);
        let r2 = k2.remove(j);
        lemma_bucket_count_multiset(dim, r1, r2, b);
        let pre = k2.take(j);
        let post = k2.skip(j + 1);
        assert(k2 =~= pre + seq![x] + post);
        assert(r2 =~= pre + post);
        lemma_bucket_count_concat(dim, pre, seq![x], b);
        lemma_bucket_count_concat(dim, pre + seq![x], post, b);
        lemma_bucket_count_concat(dim, pre, post, b);
        assert(seq![x].drop_last() =~= Seq::<Seq<char>>::empty());
        assert(seq![x].last() == x);
        let ind: nat = if key_bucket(dim, x) == b { 1 } else { 0 };
        assert(bucket_count(dim, Seq::<Seq<char>>::empty(), b) == 0);
        assert(bucket_count(dim, seq![x], b) == ind);
        assert(bucket_count(dim, k1, b) == bucket_count(dim, r1, b) + ind);
        assert(bucket_count(dim, k2, b) == bucket_count(dim, r2, b) + ind);
    }
}

/// Bag of tokens: texts whose lowercase tokens form the same multiset, in
/// whatever order, case and separators, get the same counts.
pub proof fn lemma_histogram_bag_of_tokens(dim: usize, t1: Seq<char>, t2: Seq<char>)
    requires
        lowered(alnum_tokens(t1)).to_multiset() == lowered(alnum_tokens(t2)).to_multiset(),
    ensures
        token_histogram(dim, t1) == token_histogram(dim, t2),
{
    assert forall|b: int| 0 <= b < dim implies #[trigger] token_histogram(dim, t1)[b] == token_histogram(dim, t2)[b] by {
        lemma_bucket_count_multiset(dim, lowered(alnum_tokens(t1)), lowered(alnum_tokens(t2)), b);
    }
    assert(token_histogram(dim, t1) =~= token_histogram(dim, t2));
}

/// Two texts joined by a character that is not alphanumeric have the
/// tokens of the first, then those of the second.
pub proof fn lemma_tokens_of_joined_texts(a: Seq<char>, sep: char, b: Seq<char>)
    requires
        !alphanumeric(sep),
    ensures
        alnum_tokens(a + seq![sep] + b) == alnum_tokens(a) + alnum_tokens(b),
{
    let x = a.push(sep);
    let kx = alnum_flags(x);
    assert(x.drop_last() =~= a);
    assert(kx.drop_last() =~= alnum_flags(a));
    assert(scan_marked(x, kx).0 == alnum_tokens(a));
    assert(a + seq![sep] + b =~= x + b);
    assert(alnum_flags(x + b) =~= kx + alnum_flags(b));
    lemma_scan_marked_concat(x, kx, b, alnum_flags(b));
    let r = scan_marked(b, alnum_flags(b));
    if r.1.len() > 0 {
        assert(alnum_tokens(a) + r.0.push(r.1) =~= (alnum_tokens(a) + r.0).push(r.1));
    }
}

/// Bag of tokens: the counts of two texts joined by a character that is
/// not alphanumeric are the sums of their counts, whichever comes first.
pub proof fn lemma_histogram_of_joined_texts(dim: usize, a: Seq<char>, sep: char, b: Seq<char>)
    requires
        !alphanumeric(sep),
    ensures
        forall|k: int|
            0 <= k < dim ==> #[trigger] token_histogram(dim, a + seq![sep] + b)[k] == token_histogram(dim, a)[k]
                + token_histogram(dim, b)[k],
        token_histogram(dim, a + seq![sep] + b) == token_histogram(dim, b + seq![sep] + a),
{
    let ta = alnum_tokens(a);
    let tb = alnum_tokens(b);
    lemma_tokens_of_joined_texts(a, sep, b);
    lemma_tokens_of_joined_texts(b, sep, a);
    assert(lowered(ta + tb) =~= lowered(ta) + lowered(tb));
    assert(lowered(tb + ta) =~= lowered(tb) + lowered(ta));
    assert forall|k: int| 0 <= k < dim implies #[trigger] token_histogram(dim, a + seq![sep] + b)[k]
        == token_histogram(dim, a)[k] + token_histogram(dim, b)[k] by {
        lemma_bucket_count_concat(dim, lowered(ta), lowered(tb), k);
    }
    assert forall|k: int| 0 <= k < dim implies #[trigger] token_histogram(dim, a + seq![sep] + b)[k]
        == token_histogram(dim, b + seq![sep] + a)[k] by {
        lemma_bucket_count_concat(dim, lowered(ta), lowered(tb), k);
        lemma_bucket_count_concat(dim, lowered(tb), lowered(ta), k);
    }
    assert(token_histogram(dim, a + seq![sep] + b) =~= token_histogram(dim, b + seq![sep] + a));
}

/// The bucket of the lowercase token `key`.
pub fn bucket_index(dim: usize, key: &str) -> (b: usize)
    requires
        dim > 0,
    ensures
        b == key_bucket(dim, key@),
        b < dim,
{
    let h = fnv1a(key.as_bytes());
    (h % (dim as u64)) as usize
}

/// The number of the lowercase tokens `keys` in each of `dim` buckets.
pub fn count_buckets(dim: usize, keys: &Vec<String>) -> (counts: Vec<u64>)
    requires
        dim > 0,
    ensures
        counts.len() == dim,
        forall|b: int| 0 <= b < dim ==> counts[b] == #[trigger] histogram(dim, keys.deep_view())[b],
{
    let ghost kv = keys.deep_view();
    let mut counts: Vec<u64> = Vec::new();
    let mut k: usize = 0;
    while k < dim
        invariant
            k <= dim,
            counts.len() == k,
            forall|b: int| 0 <= b < k ==> counts[b] == 0,
        decreases dim - k,
    {
        counts.push(0);
        k = k + 1;
    }
    proof {
        assert(kv.take(0) =~= Seq::<Seq<char>>::empty());
    }
    let mut i: usize = 0;
    while i < keys.len()
        invariant
            dim > 0,
            i <= keys.len(),
            kv == keys.deep_view(),
            counts.len() == dim,
            forall|b: int| 0 <= b < dim ==> counts[b] <= i,
            forall|b: int| 0 <= b < dim ==> counts[b] == bucket_count(dim, kv.take(i as int), b),
        decreases keys.len() - i,
    {
        let b = bucket_index(dim, keys[i].as_str());
        let v = counts[b];
        counts.set(b, v + 1);
        proof {
            assert(kv.take(i + 1).drop_last() =~= kv.take(i as int));
            assert(kv.take(i + 1).last() == keys@[i as int]@);
        }
        i = i + 1;
    }
    proof {
        assert(kv.take(kv.len() as int) =~= kv);
    }
    counts
}

impl HashEmbedder {
    pub fn new(dim: usize) -> (e: Self)
        ensures
            e.dim == dim,
    {
        HashEmbedder { dim }
    }

    /// The number of tokens of `text` in each of the `dim` buckets: the
    /// embedding of `text` before it is L2-normalized. Tokens are the
    /// maximal runs of alphanumeric characters, bucketed by the FNV-1a hash
    /// of their lowercase form. A text with a token and no bucket to put it
    /// in is left out.
    pub fn token_counts(&self, text: &str) -> (counts: Vec<u64>)
        requires
            self.dim > 0 || alnum_tokens(text@).len() == 0,
        ensures
            counts.len() == self.dim,
            forall|b: int| 0 <= b < self.dim ==> counts[b] == #[trigger] token_histogram(self.dim, text@)[b],
    {
        let dim = self.dim;
        if dim == 0 {
            return Vec::new();
        }
        let toks = tokens_of(text);
        let ghost tv = toks.deep_view();
        let mut keys: Vec<String> = Vec::new();
        let mut i: usize = 0;
        while i < toks.len()
            invariant
                i <= toks.len(),
                tv == toks.deep_view(),
                keys.deep_view() == lowered(tv.take(i as int)),
            decreases toks.len() - i,
        {
            let low = to_lowercase(toks[i].as_str());
            proof {
                assert(keys.deep_view().push(low@) =~= keys@.push(low).map_values(|x: String| x@));
                assert(lowered(tv.take(i + 1)) =~= lowered(tv.take(i as int)).push(lowercase(tv[i as int])));
            }
            keys.push(low);
            i = i + 1;
        }
        proof {
            assert(tv.take(tv.len() as int) =~= tv);
        }
        count_buckets(dim, &keys)
    }

    /// The token counts of `text`, or `None` when `text` has a token and
    /// there is no bucket to put it in.
    pub fn token_counts_checked(&self, text: &str) -> (r: Option<Vec<u64>>)
        ensures
            r is None <==> (self.dim == 0 && alnum_tokens(text@).len() > 0),
            r matches Some(counts) ==> counts.len() == self.dim && forall|b: int|
                0 <= b < self.dim ==> counts[b] == #[trigger] token_histogram(self.dim, text@)[b],
    {
        if self.dim == 0 {
            let toks = tokens_of(text);
            if toks.len() > 0 {
                return None;
            }
        }
        Some(self.token_counts(text))
    }
}

/// Whether some entry of `s` is named `name`.
pub open spec fn has_name<V>(s: Seq<(Seq<char>, V)>, name: Seq<char>) -> bool {
    exists|i: int| 0 <= i < s.len() && s[i].0 == name
}

/// The position of the entry named `name`, when there is one.
pub open spec fn name_index<V>(s: Seq<(Seq<char>, V)>, name: Seq<char>) -> int {
    choose|i: int| 0 <= i < s.len() && s[i].0 == name
}

/// No two entries of `s` share a name.
pub open spec fn distinct_names<V>(s: Seq<(Seq<char>, V)>) -> bool {
    forall|i: int, j: int| 0 <= i < j < s.len() ==> s[i].0 != s[j].0
}

/// The profile registered for `name`.
pub open spec fn profile_of<V>(s: Seq<(Seq<char>, V)>, name: Seq<char>) -> Option<V> {
    if has_name(s, name) {
        Some(s[name_index(s, name)].1)
    } else {
        None
    }
}

/// The entries after registering `v` for `name`: the entry named `name`
/// gets the new profile in its place, or a new entry goes at the end.
pub open spec fn spec_register<V>(s: Seq<(Seq<char>, V)>, name: Seq<char>, v: V) -> Seq<(Seq<char>, V)> {
    if has_name(s, name) {
        s.update(name_index(s, name), (name, v))
    } else {
        s.push((name, v))
    }
}

/// The registered entities and their profiles, one entry per entity, in
/// the order in which each was first registered.
pub struct EntityTable<V> {
    entries: Vec<(String, V)>,
}

impl<V> View for EntityTable<V> {
    type V = Seq<(Seq<char>, V)>;

    closed spec fn view(&self) -> Self::V {
        self.entries@.map_values(|e: (String, V)| (e.0@, e.1))
    }
}

/// In entries with distinct names, the entry at `i` is the one named
/// `s[i].0`.
pub proof fn lemma_name_index<V>(s: Seq<(Seq<char>, V)>, i: int)
    requires
        distinct_names(s),
        0 <= i < s.len(),
    ensures
        has_name(s, s[i].0),
        name_index(s, s[i].0) == i,
{
    let j = name_index(s, s[i].0);
    assert(j == i);
}

/// Registering gives back what was registered: afterwards `name` has the
/// new profile, every other entity keeps its own, names stay distinct, and
/// the table grows by one entry exactly when `name` was new.
pub proof fn lemma_register_profile<V>(s: Seq<(Seq<char>, V)>, name: Seq<char>, v: V, other: Seq<char>)
    requires
        distinct_names(s),
    ensures
        distinct_names(spec_register(s, name, v)),
        profile_of(spec_register(s, name, v), name) == Some(v),
        other != name ==> profile_of(spec_register(s, name, v), other) == profile_of(s, other),
        spec_register(s, name, v).len() == s.len() + if has_name(s, name) {
            0int
        } else {
            1int
        },
{
    let r = spec_register(s, name, v);
    if has_name(s, name) {
        let i = name_index(s, name);
        assert forall|a: int, b: int| 0 <= a < b < r.len() implies r[a].0 != r[b].0 by {
            assert(s[a].0 != s[b].0);
        }
        lemma_name_index(r, i);
        if other != name && has_name(s, other) {
            let j = name_index(s, other);
            lemma_name_index(s, j);
            lemma_name_index(r, j);
        }
        if other != name && !has_name(s, other) {
            assert(!has_name(r, other));
        }
    } else {
        let i = s.len() as int;
        assert forall|a: int, b: int| 0 <= a < b < r.len() implies r[a].0 != r[b].0 by {
            if b < s.len() {
                assert(s[a].0 != s[b].0);
            }
        }
        lemma_name_index(r, i);
        if other != name && has_name(s, other) {
            let j = name_index(s, other);
            lemma_name_index(s, j);
            lemma_name_index(r, j);
        }
        if other != name && !has_name(s, other) {
            assert(!has_name(r, other));
        }
    }
}

/// Refreshing a profile: registering an entity twice leaves the table as
/// registering it once with the later profile.
pub proof fn lemma_register_refresh<V>(s: Seq<(Seq<char>, V)>, name: Seq<char>, v1: V, v2: V)
    requires
        distinct_names(s),
    ensures
        spec_register(spec_register(s, name, v1), name, v2) == spec_register(s, name, v2),
{
    let r1 = spec_register(s, name, v1);
    lemma_register_profile(s, name, v1, name);
    if has_name(s, name) {
        let i = name_index(s, name);
        lemma_name_index(s, i);
        lemma_name_index(r1, i);
        assert(r1.update(i, (name, v2)) =~= s.update(i, (name, v2)));
    } else {
        let i = s.len() as int;
        lemma_name_index(r1, i);
        assert(r1.update(i, (name, v2)) =~= s.push((name, v2)));
    }
}

impl<V> EntityTable<V> {
    #[verifier::type_invariant]
    closed spec fn wf(self) -> bool {
        distinct_names(self@)
    }

    /// No entities.
    pub fn new() -> (t: Self)
        ensures
            t@ == Seq::<(Seq<char>, V)>::empty(),
    {
        let t = EntityTable { entries: Vec::new() };
        proof {
            assert(t@ =~= Seq::<(Seq<char>, V)>::empty());
        }
        t
    }

    /// The number of registered entities.
    pub fn len(&self) -> (n: usize)
        ensures
            n == self@.len(),
    {
        self.entries.len()
    }

    /// The entries, one per entity, in the order of first registration.
    pub fn entries(&self) -> (r: &Vec<(String, V)>)
        ensures
            r@.map_values(|e: (String, V)| (e.0@, e.1)) == self@,
            distinct_names(self@),
    {
        proof {
            use_type_invariant(self);
        }
        &self.entries
    }

    /// Registers `entity` with `profile`, or refreshes its profile when it
    /// is registered already.
    pub fn register(&mut self, entity: &str, profile: V)
        ensures
            final(self)@ == spec_register(old(self)@, entity@, profile),
            distinct_names(final(self)@),
    {
        proof {
            use_type_invariant(&*self);
        }
        let name = String::from_str(entity);
        let mut v: Vec<(String, V)> = Vec::new();
        std::mem::swap(&mut v, &mut self.entries);
        let ghost s = v@.map_values(|e: (String, V)| (e.0@, e.1));
        assert(distinct_names(s));
        let n = v.len();
        let mut i: usize = 0;
        while i < n && !(v[i].0 == name)
            invariant
                n == v.len(),
                s == v@.map_values(|e: (String, V)| (e.0@, e.1)),
                name@ == entity@,
                i <= n,
                forall|j: int| 0 <= j < i ==> s[j].0 != entity@,
            decreases n - i,
        {
            i = i + 1;
        }
        if i < n {
            proof {
                assert(s[i as int].0 == entity@);
                lemma_name_index(s, i as int);
            }
            v.set(i, (name, profile));
            proof {
                let t = v@.map_values(|e: (String, V)| (e.0@, e.1));
                assert(t =~= s.update(i as int, (entity@, profile)));
                assert forall|a: int, b: int| 0 <= a < b < t.len() implies t[a].0 != t[b].0 by {
                    assert(s[a].0 != s[b].0);
                }
            }
        } else {
            v.push((name, profile));
            proof {
                let t = v@.map_values(|e: (String, V)| (e.0@, e.1));
                assert(t =~= s.push((entity@, profile)));
                assert(!has_name(s, entity@));
                assert forall|a: int, b: int| 0 <= a < b < t.len() implies t[a].0 != t[b].0 by {
                    if b < s.len() {
                        assert(s[a].0 != s[b].0);
                    }
                }
            }
        }
        self.entries = v;
    }
}

} // verus!
