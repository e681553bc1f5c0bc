//! Character classes, case folding and the splitting of text into runs of
//! characters.
use vstd::prelude::*;

verus! {

/// What `char::is_alphanumeric` returns for `c` (Unicode `Alphabetic` or
/// numeric general category).
pub uninterp spec fn alphanumeric(c: char) -> bool;

/// Whether `c` has the Unicode `White_Space` property, as
/// `char::is_whitespace` tests: the 25 code points U+0009..=U+000D, U+0020,
/// U+0085, U+00A0, U+1680, U+2000..=U+200A, U+2028, U+2029, U+202F,
/// U+205F and U+3000.
pub open spec fn whitespace(c: char) -> bool {
    let u = c as u32;
    ||| 0x9 <= u <= 0xD
    ||| u == 0x20
    ||| u == 0x85
    ||| u == 0xA0
    ||| u == 0x1680
    ||| 0x2000 <= u <= 0x200A
    ||| u == 0x2028
    ||| u == 0x2029
    ||| u == 0x202F
    ||| u == 0x205F
    ||| u == 0x3000
}

/// What `str::to_lowercase` returns for a string with characters `s`.
pub uninterp spec fn lowercase(s: Seq<char>) -> Seq<char>;

/// Calls `char::is_alphanumeric`; the result is named by `alphanumeric`.
#[verifier::external_body]
pub(crate) fn is_alphanumeric(c: char) -> (b: bool)
    ensures
        b == alphanumeric(c),
{
    c.is_alphanumeric()
}

/// Whether `c` is whitespace.
pub fn is_whitespace(c: char) -> (b: bool)
    ensures
        b == whitespace(c),
{
    let u = c as u32;
    (0x9 <= u && u <= 0xD) || u == 0x20 || u == 0x85 || u == 0xA0 || u == 0x1680 || (0x2000 <= u
        && u <= 0x200A) || u == 0x2028 || u == 0x2029 || u == 0x202F || u == 0x205F || u == 0x3000
}

/// Calls `str::to_lowercase`; the characters of the result are named by
/// `lowercase` applied to the characters of `s`.
#[verifier::external_body]
pub(crate) fn to_lowercase(s: &str) -> (r: String)
    ensures
        r@ == lowercase(s@),
{
    s.to_lowercase()
}

/// Calls `String::push`, which appends `c` to the end of `s`.
#[verifier::external_body]
pub(crate) fn push_char(s: &mut String, c: char)
    ensures
        final(s)@ == old(s)@.push(c),
{
    s.push(c)
}

/// Left-to-right scan of `cs` for maximal runs of characters marked `true`
/// in `keep`: the runs already closed, and the run still open at the end.
pub open spec fn scan_marked(cs: Seq<char>, keep: Seq<bool>) -> (Seq<Seq<char>>, Seq<char>)
    decreases cs.len(),
{
    if cs.len() == 0 {
        (Seq::empty(), Seq::empty())
    } else {
        let prev = scan_marked(cs.drop_last(), keep.drop_last());
        if keep.last() {
            (prev.0, prev.1.push(cs.last()))
        } else if prev.1.len() > 0 {
            (prev.0.push(prev.1), Seq::empty())
        } else {
            (prev.0, Seq::empty())
        }
    }
}

/// The maximal non-empty runs of characters of `cs` marked `true` in
/// `keep`, in order: what splitting at the unmarked characters yields once
/// empty pieces are dropped.
pub open spec fn marked_runs(cs: Seq<char>, keep: Seq<bool>) -> Seq<Seq<char>> {
    let r = scan_marked(cs, keep);
    if r.1.len() > 0 {
        r.0.push(r.1)
    } else {
        r.0
    }
}

/// Each character of `s` marked alphanumeric or not.
pub open spec fn alnum_flags(s: Seq<char>) -> Seq<bool> {
    s.map_values(|c: char| alphanumeric(c))
}

/// Each character of `s` marked `true` when it is not whitespace.
pub open spec fn non_space_flags(s: Seq<char>) -> Seq<bool> {
    s.map_values(|c: char| !whitespace(c))
}

/// The tokens of `s`: its maximal runs of alphanumeric characters, as
/// `split(|c| !c.is_alphanumeric())` yields them once empty pieces are
/// dropped.
pub open spec fn alnum_tokens(s: Seq<char>) -> Seq<Seq<char>> {
    marked_runs(s, alnum_flags(s))
}

/// The words of `s`, as `str::split_whitespace` yields them: its maximal
/// runs of non-whitespace characters.
pub open spec fn words(s: Seq<char>) -> Seq<Seq<char>> {
    marked_runs(s, non_space_flags(s))
}

/// Left-to-right scan of `s` for the pieces between occurrences of `sep`:
/// the pieces closed by a separator, and the piece still open.
pub open spec fn scan_pieces(s: Seq<char>, sep: char) -> (Seq<Seq<char>>, Seq<char>)
    decreases s.len(),
{
    if s.len() == 0 {
        (Seq::empty(), Seq::empty())
    } else {
        let prev = scan_pieces(s.drop_last(), sep);
        if s.last() == sep {
            (prev.0.push(prev.1), Seq::empty())
        } else {
            (prev.0, prev.1.push(s.last()))
        }
    }
}

/// The pieces of `s` between occurrences of `sep`, empty ones included, as
/// `str::split` with a `char` pattern yields them: one more piece than
/// there are separators.
pub open spec fn pieces(s: Seq<char>, sep: char) -> Seq<Seq<char>> {
    let r = scan_pieces(s, sep);
    r.0.push(r.1)
}

/// `ch` occurs in `cs` at a position marked `true` in `keep`.
spec fn occurs_marked(cs: Seq<char>, keep: Seq<bool>, ch: char) -> bool {
    exists|k: int| 0 <= k < cs.len() && keep[k] && cs[k] == ch
}

proof fn lemma_scan_marked_wellformed(cs: Seq<char>, keep: Seq<bool>)
    requires
        keep.len() == cs.len(),
    ensures
        forall|i: int|
            0 <= i < scan_marked(cs, keep).0.len() ==> #[trigger] scan_marked(cs, keep).0[i].len() > 0,
        forall|i: int, j: int|
            0 <= i < scan_marked(cs, keep).0.len() && 0 <= j < scan_marked(cs, keep).0[i].len()
                ==> occurs_marked(cs, keep, #[trigger] scan_marked(cs, keep).0[i][j]),
        forall|j: int|
            0 <= j < scan_marked(cs, keep).1.len() ==> occurs_marked(cs, keep, #[trigger] scan_marked(cs, keep).1[j]),
    decreases cs.len(),
{
    if cs.len() > 0 {
        let pc = cs.drop_last();
        let pk = keep.drop_last();
        lemma_scan_marked_wellformed(pc, pk);
        let prev = scan_marked(pc, pk);
        let r = scan_marked(cs, keep);
        let n = cs.len() - 1;
        assert forall|ch: char| occurs_marked(pc, pk, ch) implies occurs_marked(cs, keep, ch) by {
            let k = choose|k: int| 0 <= k < pc.len() && pk[k] && pc[k] == ch;
            assert(keep[k] && cs[k] == ch);
        }
        assert forall|i: int| 0 <= i < r.0.len() implies #[trigger] r.0[i].len() > 0 by {
            if i < prev.0.len() {
                assert(r.0[i] == prev.0[i]);
            }
        }
        assert forall|i: int, j: int| 0 <= i < r.0.len() && 0 <= j < r.0[i].len() implies occurs_marked(
            cs,
            keep,
            #[trigger] r.0[i][j],
        ) by {
            if i < prev.0.len() {
                assert(r.0[i] == prev.0[i]);
                assert(occurs_marked(pc, pk, prev.0[i][j]));
            } else {
                assert(r.0[i] == prev.1);
                assert(occurs_marked(pc, pk, prev.1[j]));
            }
        }
        assert forall|j: int| 0 <= j < r.1.len() implies occurs_marked(cs, keep, #[trigger] r.1[j]) by {
            if j < prev.1.len() {
                assert(occurs_marked(pc, pk, prev.1[j]));
            } else {
                assert(keep[n] && cs[n] == r.1[j]);
            }
        }
    }
}

/// Scanning `x` then `y`, where `x` leaves no run open, closes the runs of
/// `x` and then those of `y`.
pub proof fn lemma_scan_marked_concat(x: Seq<char>, kx: Seq<bool>, y: Seq<char>, ky: Seq<bool>)
    requires
        kx.len() == x.len(),
        ky.len() == y.len(),
        scan_marked(x, kx).1.len() == 0,
    ensures
        scan_marked(x + y, kx + ky) == (scan_marked(x, kx).0 + scan_marked(y, ky).0, scan_marked(y, ky).1),
    decreases y.len(),
{
    if y.len() == 0 {
        assert(x + y =~= x);
        assert(kx + ky =~= kx);
        assert(scan_marked(x, kx).0 + scan_marked(y, ky).0 =~= scan_marked(x, kx).0);
    } else {
        lemma_scan_marked_concat(x, kx, y.drop_last(), ky.drop_last());
        assert((x + y).drop_last() =~= x + y.drop_last());
        assert((kx + ky).drop_last() =~= kx + ky.drop_last());
        let p = scan_marked(y.drop_last(), ky.drop_last());
        assert(scan_marked(x, kx).0 + p.0.push(p.1) =~= (scan_marked(x, kx).0 + p.0).push(p.1));
    }
}

/// `a` holds no whitespace.
pub open spec fn no_space(a: Seq<char>) -> bool {
    forall|i: int| 0 <= i < a.len() ==> !whitespace(#[trigger] a[i])
}

proof fn lemma_scan_no_space(a: Seq<char>)
    requires
        no_space(a),
    ensures
        scan_marked(a, non_space_flags(a)) == (Seq::<Seq<char>>::empty(), a),
    decreases a.len(),
{
    if a.len() > 0 {
        assert(no_space(a.drop_last()));
        assert(non_space_flags(a).drop_last() =~= non_space_flags(a.drop_last()));
        lemma_scan_no_space(a.drop_last());
        assert(!whitespace(a[a.len() - 1]));
        assert(a.drop_last().push(a.last()) =~= a);
    }
}

/// A non-empty text without whitespace is one word.
pub proof fn lemma_words_of_word(a: Seq<char>)
    requires
        a.len() > 0,
        no_space(a),
    ensures
        words(a) == seq![a],
{
    lemma_scan_no_space(a);
}

/// A word, a space, then `b`: the word, then the words of `b`.
pub proof fn lemma_words_join(a: Seq<char>, b: Seq<char>)
    requires
        a.len() > 0,
        no_space(a),
    ensures
        words(a + seq![' '] + b) == seq![a] + words(b),
{
    let x = a.push(' ');
    let kx = non_space_flags(x);
    lemma_scan_no_space(a);
    assert(x.drop_last() =~= a);
    assert(kx.drop_last() =~= non_space_flags(a));
    assert(whitespace(' '));
    assert(scan_marked(x, kx) == (seq![a], Seq::<char>::empty()));
    assert(a + seq![' '] + b =~= x + b);
    assert(non_space_flags(x + b) =~= kx + non_space_flags(b));
    lemma_scan_marked_concat(x, kx, b, non_space_flags(b));
    let r = scan_marked(b, non_space_flags(b));
    if r.1.len() > 0 {
        assert(seq![a] + r.0.push(r.1) =~= (seq![a] + r.0).push(r.1));
    }
}

proof fn lemma_scan_pieces_none(a: Seq<char>, sep: char)
    requires
        !a.contains(sep),
    ensures
        scan_pieces(a, sep) == (Seq::<Seq<char>>::empty(), a),
    decreases a.len(),
{
    if a.len() > 0 {
        assert(!a.drop_last().contains(sep)) by {
            if a.drop_last().contains(sep) {
                let i = choose|i: int| 0 <= i < a.drop_last().len() && a.drop_last()[i] == sep;
                assert(a[i] == sep);
            }
        }
        lemma_scan_pieces_none(a.drop_last(), sep);
        assert(a[a.len() - 1] != sep);
        assert(a.drop_last().push(a.last()) =~= a);
    }
}

proof fn lemma_scan_pieces_concat(x: Seq<char>, y: Seq<char>, sep: char)
    requires
        scan_pieces(x, sep).1.len() == 0,
    ensures
        scan_pieces(x + y, sep) == (scan_pieces(x, sep).0 + scan_pieces(y, sep).0, scan_pieces(y, sep).1),
    decreases y.len(),
{
    if y.len() == 0 {
        assert(x + y =~= x);
        assert(scan_pieces(x, sep).0 + scan_pieces(y, sep).0 =~= scan_pieces(x, sep).0);
    } else {
        lemma_scan_pieces_concat(x, y.drop_last(), sep);
        assert((x + y).drop_last() =~= x + y.drop_last());
        let p = scan_pieces(y.drop_last(), sep);
        assert(scan_pieces(x, sep).0 + p.0.push(p.1) =~= (scan_pieces(x, sep).0 + p.0).push(p.1));
    }
}

/// A text without the separator is one piece.
pub proof fn lemma_pieces_of_piece(a: Seq<char>, sep: char)
    requires
        !a.contains(sep),
    ensures
        pieces(a, sep) == seq![a],
{
    lemma_scan_pieces_none(a, sep);
}

/// A piece, the separator, then `b`: the piece, then the pieces of `b`.
pub proof fn lemma_pieces_join(a: Seq<char>, sep: char, b: Seq<char>)
    requires
        !a.contains(sep),
    ensures
        pieces(a + seq![sep] + b, sep) == seq![a] + pieces(b, sep),
{
    let x = a.push(sep);
    lemma_scan_pieces_none(a, sep);
    assert(x.drop_last() =~= a);
    assert(scan_pieces(x, sep) == (seq![a], Seq::<char>::empty()));
    assert(a + seq![sep] + b =~= x + b);
    lemma_scan_pieces_concat(x, b, sep);
    let r = scan_pieces(b, sep);
    assert(seq![a] + r.0.push(r.1) =~= (seq![a] + r.0).push(r.1));
}

/// Every token is non-empty and made of alphanumeric characters only.
pub proof fn lemma_tokens_alphanumeric(s: Seq<char>)
    ensures
        forall|i: int| 0 <= i < alnum_tokens(s).len() ==> #[trigger] alnum_tokens(s)[i].len() > 0,
        forall|i: int, j: int|
            0 <= i < alnum_tokens(s).len() && 0 <= j < alnum_tokens(s)[i].len() ==> alphanumeric(
                #[trigger] alnum_tokens(s)[i][j],
            ),
{
    let keep = alnum_flags(s);
    lemma_scan_marked_wellformed(s, keep);
    let r = scan_marked(s, keep);
    let t = alnum_tokens(s);
    assert forall|i: int, j: int| 0 <= i < t.len() && 0 <= j < t[i].len() implies alphanumeric(
        #[trigger] t[i][j],
    ) by {
        let ch = t[i][j];
        if i < r.0.len() {
            assert(occurs_marked(s, keep, r.0[i][j]));
        } else {
            assert(occurs_marked(s, keep, r.1[j]));
        }
        let k = choose|k: int| 0 <= k < s.len() && keep[k] && s[k] == ch;
        assert(keep[k] == alphanumeric(s[k]));
    }
}

} // verus!

verus! {

/// The characters of `s`, in order.
pub fn chars_of(s: &str) -> (v: Vec<char>)
    ensures
        v@ == s@,
{
    let mut v: Vec<char> = Vec::new();
    for c in it: s.chars()
        invariant
            it.seq() == s@,
            v@ == s@.take(it.index() as int),
    {
        proof {
            assert(c == s@[it.index() as int]);
        }
        v.push(c);
        proof {
            assert(s@.take(it.index() + 1) =~= v@);
        }
    }
    proof {
        assert(s@.take(s@.len() as int) =~= s@);
    }
    v
}

/// A `String` holding the characters `cs[from..to]`.
pub fn string_of(cs: &Vec<char>, from: usize, to: usize) -> (s: String)
    requires
        from <= to <= cs.len(),
    ensures
        s@ == cs@.subrange(from as int, to as int),
{
    let mut s = String::new();
    let mut i: usize = from;
    while i < to
        invariant
            from <= i <= to <= cs.len(),
            s@ == cs@.subrange(from as int, i as int),
        decreases to - i,
    {
        push_char(&mut s, cs[i]);
        proof {
            assert(cs@.subrange(from as int, i + 1) =~= cs@.subrange(from as int, i as int).push(cs@[i as int]));
        }
        i = i + 1;
    }
    s
}

/// The maximal runs of characters of `cs` marked `true` in `keep`, each as a
/// `String`, in order.
pub fn split_marked(cs: &Vec<char>, keep: &Vec<bool>) -> (rs: Vec<String>)
    requires
        keep.len() == cs.len(),
    ensures
        rs.deep_view() == marked_runs(cs@, keep@),
{
    let n = cs.len();
    let mut rs: Vec<String> = Vec::new();
    let mut start: usize = 0;
    let mut i: usize = 0;
    while i < n
        invariant
            n == cs.len(),
            n == keep.len(),
            start <= i <= n,
            rs.deep_view() == scan_marked(cs@.take(i as int), keep@.take(i as int)).0,
            cs@.subrange(start as int, i as int) == scan_marked(cs@.take(i as int), keep@.take(i as int)).1,
        decreases n - i,
    {
        let c = cs[i];
        proof {
            assert(cs@.take(i + 1).drop_last() =~= cs@.take(i as int));
            assert(keep@.take(i + 1).drop_last() =~= keep@.take(i as int));
            assert(cs@.take(i + 1).last() == c);
            assert(keep@.take(i + 1).last() == keep@[i as int]);
        }
        if !keep[i] {
            if start < i {
                let w = string_of(cs, start, i);
                proof {
                    assert(rs.deep_view().push(w@) =~= rs@.push(w).map_values(|x: String| x@));
                }
                rs.push(w);
            }
            start = i + 1;
            proof {
                assert(cs@.subrange(start as int, i + 1) =~= Seq::<char>::empty());
            }
        } else {
            proof {
                assert(cs@.subrange(start as int, i + 1) =~= cs@.subrange(start as int, i as int).push(c));
            }
        }
        i = i + 1;
    }
    proof {
        assert(cs@.take(n as int) =~= cs@);
        assert(keep@.take(n as int) =~= keep@);
    }
    if start < n {
        let w = string_of(cs, start, n);
        proof {
            assert(rs.deep_view().push(w@) =~= rs@.push(w).map_values(|x: String| x@));
        }
        rs.push(w);
    }
    rs
}

/// Each character of `cs` marked alphanumeric or not.
pub fn alnum_marks(cs: &Vec<char>) -> (keep: Vec<bool>)
    ensures
        keep@ == alnum_flags(cs@),
{
    let mut keep: Vec<bool> = Vec::new();
    let mut i: usize = 0;
    while i < cs.len()
        invariant
            i <= cs.len(),
            keep@ == alnum_flags(cs@.take(i as int)),
        decreases cs.len() - i,
    {
        keep.push(is_alphanumeric(cs[i]));
        proof {
            assert(keep@ =~= alnum_flags(cs@.take(i + 1)));
        }
        i = i + 1;
    }
    proof {
        assert(cs@.take(cs.len() as int) =~= cs@);
    }
    keep
}

/// Each character of `cs` marked `true` when it is not whitespace.
pub fn non_space_marks(cs: &Vec<char>) -> (keep: Vec<bool>)
    ensures
        keep@ == non_space_flags(cs@),
{
    let mut keep: Vec<bool> = Vec::new();
    let mut i: usize = 0;
    while i < cs.len()
        invariant
            i <= cs.len(),
            keep@ == non_space_flags(cs@.take(i as int)),
        decreases cs.len() - i,
    {
        keep.push(!is_whitespace(cs[i]));
        proof {
            assert(keep@ =~= non_space_flags(cs@.take(i + 1)));
        }
        i = i + 1;
    }
    proof {
        assert(cs@.take(cs.len() as int) =~= cs@);
    }
    keep
}

/// The tokens of `s`: its maximal runs of alphanumeric characters.
pub fn tokens_of(s: &str) -> (ts: Vec<String>)
    ensures
        ts.deep_view() == alnum_tokens(s@),
{
    let cs = chars_of(s);
    let keep = alnum_marks(&cs);
    split_marked(&cs, &keep)
}

/// The words of `s`, as `str::split_whitespace` yields them.
pub fn words_of(s: &str) -> (ws: Vec<String>)
    ensures
        ws.deep_view() == words(s@),
{
    let cs = chars_of(s);
    let keep = non_space_marks(&cs);
    split_marked(&cs, &keep)
}

/// The pieces of `s` between occurrences of `sep`, as `str::split` with a
/// `char` pattern yields them.
pub fn pieces_of(s: &str, sep: char) -> (ps: Vec<String>)
    ensures
        ps.deep_view() == pieces(s@, sep),
{
    let cs = chars_of(s);
    let n = cs.len();
    let mut ps: Vec<String> = Vec::new();
    let mut start: usize = 0;
    let mut i: usize = 0;
    while i < n
        invariant
            n == cs.len(),
            cs@ == s@,
            start <= i <= n,
            ps.deep_view() == scan_pieces(cs@.take(i as int), sep).0,
            cs@.subrange(start as int, i as int) == scan_pieces(cs@.take(i as int), sep).1,
        decreases n - i,
    {
        let c = cs[i];
        proof {
            let post = cs@.take(i + 1);
            assert(post.drop_last() =~= cs@.take(i as int));
            assert(post.last() == c);
        }
        if c == sep {
            let p = string_of(&cs, start, i);
            proof {
                assert(ps.deep_view().push(p@) =~= ps@.push(p).map_values(|x: String| x@));
            }
            ps.push(p);
            start = i + 1;
            proof {
                assert(cs@.subrange(start as int, i + 1) =~= Seq::<char>::empty());
            }
        } else {
            proof {
                assert(cs@.subrange(start as int, i + 1) =~= cs@.subrange(start as int, i as int).push(c));
            }
        }
        i = i + 1;
    }
    proof {
        assert(cs@.take(n as int) =~= s@);
    }
    let p = string_of(&cs, start, n);
    proof {
        assert(ps.deep_view().push(p@) =~= ps@.push(p).map_values(|x: String| x@));
    }
    ps.push(p);
    ps
}

} // verus!
