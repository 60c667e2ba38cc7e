//! Character-sequence helpers shared by the fragment model and the
//! generator: lexicographic ordering, insertion sort, joining with a
//! separator, the `[]` -> `Array` rewrite and double-quote escaping.
use vstd::prelude::*;
use vstd::string::StrSliceExecFns;
use vstd::string::StringExecFns;

verus! {

/// Lexicographic order on character sequences, by Unicode scalar value.
/// This coincides with the byte order of the UTF-8 encodings.
pub open spec fn lex_leq(a: Seq<char>, b: Seq<char>) -> bool
    decreases a.len(),
{
    if a.len() == 0 {
        true
    } else if b.len() == 0 {
        false
    } else if a[0] != b[0] {
        (a[0] as int) < (b[0] as int)
    } else {
        lex_leq(a.drop_first(), b.drop_first())
    }
}

/// The order is total: any two sequences are comparable.
pub proof fn lemma_lex_leq_total(a: Seq<char>, b: Seq<char>)
    ensures
        lex_leq(a, b) || lex_leq(b, a),
    decreases a.len(),
{
    if a.len() == 0 || b.len() == 0 {
    } else if a[0] != b[0] {
        assert((a[0] as int) != (b[0] as int));
    } else {
        lemma_lex_leq_total(a.drop_first(), b.drop_first());
    }
}

/// The order is reflexive.
pub proof fn lemma_lex_leq_refl(a: Seq<char>)
    ensures
        lex_leq(a, a),
    decreases a.len(),
{
    if a.len() > 0 {
        lemma_lex_leq_refl(a.drop_first());
    }
}

/// The order is antisymmetric.
pub proof fn lemma_lex_leq_antisym(a: Seq<char>, b: Seq<char>)
    requires
        lex_leq(a, b),
        lex_leq(b, a),
    ensures
        a == b,
    decreases a.len(),
{
    if a.len() == 0 {
        assert(b.len() == 0);
        assert(a =~= b);
    } else {
        assert(b.len() > 0);
        if a[0] == b[0] {
            lemma_lex_leq_antisym(a.drop_first(), b.drop_first());
            assert(a =~= seq![a[0]] + a.drop_first());
            assert(b =~= seq![b[0]] + b.drop_first());
        }
    }
}

/// The order is transitive.
pub proof fn lemma_lex_leq_trans(a: Seq<char>, b: Seq<char>, c: Seq<char>)
    requires
        lex_leq(a, b),
        lex_leq(b, c),
    ensures
        lex_leq(a, c),
    decreases a.len(),
{
    if a.len() == 0 {
    } else {
        assert(b.len() > 0);
        assert(c.len() > 0);
        if a[0] == b[0] && b[0] == c[0] {
            lemma_lex_leq_trans(a.drop_first(), b.drop_first(), c.drop_first());
        }
    }
}

/// The lexicographic order as a relation value, for vstd's ordering
/// predicates.
pub open spec fn lex_leq_fn() -> spec_fn(Seq<char>, Seq<char>) -> bool {
    |a: Seq<char>, b: Seq<char>| lex_leq(a, b)
}

/// The order is a total ordering in the sense of vstd's relations.
pub proof fn lemma_lex_total_ordering()
    ensures
        vstd::relations::total_ordering(lex_leq_fn()),
{
    assert forall|x: Seq<char>| #[trigger] lex_leq_fn()(x, x) by {
        lemma_lex_leq_refl(x);
    }
    assert forall|x: Seq<char>, y: Seq<char>|
        #[trigger] lex_leq_fn()(x, y) && #[trigger] lex_leq_fn()(y, x) implies x == y by {
        lemma_lex_leq_antisym(x, y);
    }
    assert forall|x: Seq<char>, y: Seq<char>, z: Seq<char>|
        #[trigger] lex_leq_fn()(x, y) && #[trigger] lex_leq_fn()(y, z) implies lex_leq_fn()(
        x,
        z,
    ) by {
        lemma_lex_leq_trans(x, y, z);
    }
    assert forall|x: Seq<char>, y: Seq<char>|
        #[trigger] lex_leq_fn()(x, y) || #[trigger] lex_leq_fn()(y, x) by {
        lemma_lex_leq_total(x, y);
    }
}

/// Insert `x` into `s` in front of the first element that is not below it.
pub open spec fn insert_le(x: Seq<char>, s: Seq<Seq<char>>) -> Seq<Seq<char>>
    decreases s.len(),
{
    if s.len() == 0 {
        seq![x]
    } else if lex_leq(x, s[0]) {
        seq![x] + s
    } else {
        seq![s[0]] + insert_le(x, s.drop_first())
    }
}

/// Insertion sort of a sequence of character sequences under `lex_leq`.
pub open spec fn sort_seqs(s: Seq<Seq<char>>) -> Seq<Seq<char>>
    decreases s.len(),
{
    if s.len() == 0 {
        Seq::empty()
    } else {
        insert_le(s.last(), sort_seqs(s.drop_last()))
    }
}

proof fn lemma_insert_le_sorted(x: Seq<char>, s: Seq<Seq<char>>)
    requires
        vstd::relations::sorted_by(s, lex_leq_fn()),
    ensures
        vstd::relations::sorted_by(insert_le(x, s), lex_leq_fn()),
        insert_le(x, s).to_multiset() =~= s.to_multiset().insert(x),
    decreases s.len(),
{
    lemma_lex_total_ordering();
    if s.len() == 0 {
        assert(s =~= Seq::<Seq<char>>::empty());
        assert(insert_le(x, s) =~= Seq::<Seq<char>>::empty().push(x));
        Seq::<Seq<char>>::empty().to_multiset_ensures();
        assert(Seq::<Seq<char>>::empty().push(x).to_multiset() =~= Seq::<
            Seq<char>,
        >::empty().to_multiset().insert(x));
    } else if lex_leq(x, s[0]) {
        assert(insert_le(x, s) == seq![x] + s);
        vstd::relations::lemma_new_first_element_still_sorted_by(x, s, lex_leq_fn());
        assert(seq![x].add(s) == seq![x] + s);
        assert(seq![x] =~= Seq::<Seq<char>>::empty().push(x));
        Seq::<Seq<char>>::empty().to_multiset_ensures();
        vstd::seq_lib::lemma_multiset_commutative(seq![x], s);
        assert((seq![x] + s).to_multiset() =~= seq![x].to_multiset().add(s.to_multiset()));
        assert((seq![x] + s).to_multiset() =~= s.to_multiset().insert(x));
    } else {
        assert forall|i: int, j: int|
            0 <= i < j < s.drop_first().len() implies #[trigger] lex_leq_fn()(
            s.drop_first()[i],
            s.drop_first()[j],
        ) by {
            assert(lex_leq_fn()(s[i + 1], s[j + 1]));
        }
        lemma_insert_le_sorted(x, s.drop_first());
        let t = insert_le(x, s.drop_first());
        assert(t.len() > 0);
        lemma_lex_leq_total(x, s[0]);
        if s.drop_first().len() == 0 || lex_leq(x, s.drop_first()[0]) {
            assert(t[0] == x);
        } else {
            assert(t[0] == s.drop_first()[0]);
            assert(lex_leq_fn()(s[0], s[1]));
            assert(s.drop_first()[0] == s[1]);
        }
        assert(lex_leq_fn()(s[0], t[0]));
        vstd::relations::lemma_new_first_element_still_sorted_by(s[0], t, lex_leq_fn());
        assert(seq![s[0]].add(t) == seq![s[0]] + t);
        assert(insert_le(x, s) == seq![s[0]] + t);
        assert(seq![s[0]] =~= Seq::<Seq<char>>::empty().push(s[0]));
        Seq::<Seq<char>>::empty().to_multiset_ensures();
        assert(s =~= seq![s[0]] + s.drop_first());
        vstd::seq_lib::lemma_multiset_commutative(seq![s[0]], t);
        vstd::seq_lib::lemma_multiset_commutative(seq![s[0]], s.drop_first());
        assert((seq![s[0]] + t).to_multiset() =~= s.to_multiset().insert(x));
    }
}

/// The type lists inside the uniqueness key really are sorted:
/// `sort_seqs` yields a sequence ordered under `lex_leq` that is a
/// permutation of its input.
pub proof fn lemma_sort_seqs_sorted(s: Seq<Seq<char>>)
    ensures
        vstd::relations::sorted_by(sort_seqs(s), lex_leq_fn()),
        sort_seqs(s).to_multiset() =~= s.to_multiset(),
    decreases s.len(),
{
    if s.len() > 0 {
        lemma_sort_seqs_sorted(s.drop_last());
        lemma_insert_le_sorted(s.last(), sort_seqs(s.drop_last()));
        assert(s =~= s.drop_last().push(s.last()));
        s.drop_last().to_multiset_ensures();
        assert(s.drop_last().push(s.last()).to_multiset() =~= s.drop_last().to_multiset().insert(
            s.last(),
        ));
    } else {
        assert(s =~= Seq::<Seq<char>>::empty());
    }
}

/// The parts concatenated, with `sep` between consecutive parts.
pub open spec fn join_with(parts: Seq<Seq<char>>, sep: Seq<char>) -> Seq<char>
    decreases parts.len(),
{
    if parts.len() == 0 {
        Seq::empty()
    } else if parts.len() == 1 {
        parts[0]
    } else {
        parts[0] + sep + join_with(parts.drop_first(), sep)
    }
}

pub proof fn lemma_join_with_push(parts: Seq<Seq<char>>, sep: Seq<char>, x: Seq<char>)
    ensures
        join_with(parts.push(x), sep) == if parts.len() == 0 {
            x
        } else {
            join_with(parts, sep) + sep + x
        },
    decreases parts.len(),
{
    if parts.len() == 0 {
        assert(parts.push(x) =~= seq![x]);
    } else {
        assert(parts.push(x).drop_first() =~= parts.drop_first().push(x));
        lemma_join_with_push(parts.drop_first(), sep, x);
        if parts.len() == 1 {
            assert(parts.drop_first().len() == 0);
            assert(join_with(parts.push(x), sep) =~= parts[0] + sep + x);
            assert(join_with(parts, sep) + sep + x =~= parts[0] + sep + x);
        } else {
            assert(join_with(parts.push(x), sep) =~= parts[0] + sep + (join_with(
                parts.drop_first(),
                sep,
            ) + sep + x));
            assert(parts[0] + sep + (join_with(parts.drop_first(), sep) + sep + x) =~= (parts[0]
                + sep + join_with(parts.drop_first(), sep)) + sep + x);
        }
    }
}

/// The token substituted for each `[]` in a type name.
pub open spec fn array_token() -> Seq<char> {
    seq!['A', 'r', 'r', 'a', 'y']
}

/// Every occurrence of the two-character sequence `[]` replaced by
/// `Array`, scanning left to right.
pub open spec fn replace_brackets(s: Seq<char>) -> Seq<char>
    decreases s.len(),
{
    if s.len() >= 2 && s[0] == '[' && s[1] == ']' {
        array_token() + replace_brackets(s.skip(2))
    } else if s.len() == 0 {
        Seq::empty()
    } else {
        seq![s[0]] + replace_brackets(s.drop_first())
    }
}

/// Every double quote preceded by a backslash; no other character changes.
pub open spec fn escape_quotes(s: Seq<char>) -> Seq<char>
    decreases s.len(),
{
    if s.len() == 0 {
        Seq::empty()
    } else if s[0] == '"' {
        seq!['\\', '"'] + escape_quotes(s.drop_first())
    } else {
        seq![s[0]] + escape_quotes(s.drop_first())
    }
}

/// The views of a sequence of owned strings.
pub open spec fn views_of_strings(s: Seq<String>) -> Seq<Seq<char>> {
    s.map_values(|x: String| x@)
}

/// Relies on String::push: appends exactly the one given character.
#[verifier::external_body]
pub(crate) fn push_char(s: &mut String, c: char)
    ensures
        final(s)@ == old(s)@ + seq![c],
{
    s.push(c)
}

/// Character-wise comparison realising `lex_leq` on string slices.
pub fn str_lex_leq(a: &str, b: &str) -> (r: bool)
    ensures
        r == lex_leq(a@, b@),
{
    let alen: usize = a.unicode_len();
    let blen: usize = b.unicode_len();
    let mut i: usize = 0;
    proof {
        assert(a@.skip(0) =~= a@);
        assert(b@.skip(0) =~= b@);
    }
    loop
        invariant
            i <= alen,
            i <= blen,
            alen == a@.len(),
            blen == b@.len(),
            lex_leq(a@, b@) == lex_leq(a@.skip(i as int), b@.skip(i as int)),
        decreases alen - i,
    {
        if i == alen {
            proof {
                assert(a@.skip(i as int).len() == 0);
            }
            return true;
        }
        if i == blen {
            proof {
                assert(b@.skip(i as int).len() == 0);
                assert(a@.skip(i as int).len() > 0);
            }
            return false;
        }
        let ca: char = a.get_char(i);
        let cb: char = b.get_char(i);
        proof {
            assert(a@.skip(i as int)[0] == a@[i as int]);
            assert(b@.skip(i as int)[0] == b@[i as int]);
        }
        if ca != cb {
            return (ca as u32) < (cb as u32);
        }
        proof {
            assert(a@.skip(i as int).drop_first() =~= a@.skip(i + 1));
            assert(b@.skip(i as int).drop_first() =~= b@.skip(i + 1));
        }
        i = i + 1;
    }
}

/// Character-wise equality of string slices.
pub fn str_eq(a: &str, b: &str) -> (r: bool)
    ensures
        r == (a@ == b@),
{
    let alen: usize = a.unicode_len();
    let blen: usize = b.unicode_len();
    if alen != blen {
        return false;
    }
    let mut i: usize = 0;
    while i < alen
        invariant
            i <= alen,
            alen == a@.len(),
            alen == b@.len(),
            forall|k: int| 0 <= k < i ==> a@[k] == b@[k],
        decreases alen - i,
    {
        if a.get_char(i) != b.get_char(i) {
            return false;
        }
        i = i + 1;
    }
    proof {
        assert(a@ =~= b@);
    }
    true
}

proof fn lemma_insert_le_at(x: Seq<char>, s: Seq<Seq<char>>, pos: int)
    requires
        0 <= pos <= s.len(),
        forall|k: int| 0 <= k < pos ==> !lex_leq(x, s[k]),
        pos < s.len() ==> lex_leq(x, s[pos]),
    ensures
        insert_le(x, s) == s.take(pos) + seq![x] + s.skip(pos),
    decreases s.len(),
{
    if s.len() == 0 {
        assert(insert_le(x, s) =~= s.take(pos) + seq![x] + s.skip(pos));
    } else if pos == 0 {
        assert(insert_le(x, s) =~= s.take(pos) + seq![x] + s.skip(pos));
    } else {
        assert(!lex_leq(x, s[0]));
        assert(forall|k: int| 0 <= k < pos - 1 ==> s.drop_first()[k] == s[k + 1]);
        lemma_insert_le_at(x, s.drop_first(), pos - 1);
        assert(insert_le(x, s) == seq![s[0]] + (s.drop_first().take(pos - 1) + seq![x]
            + s.drop_first().skip(pos - 1)));
        assert(seq![s[0]] + (s.drop_first().take(pos - 1) + seq![x] + s.drop_first().skip(pos - 1))
            =~= s.take(pos) + seq![x] + s.skip(pos));
    }
}

/// The index in front of which `x` belongs in the sorted vector `v`.
fn insert_pos(v: &Vec<String>, x: &String) -> (pos: usize)
    ensures
        pos <= v@.len(),
        forall|k: int| 0 <= k < pos ==> !lex_leq(x@, views_of_strings(v@)[k]),
        pos < v@.len() ==> lex_leq(x@, views_of_strings(v@)[pos as int]),
{
    let mut i: usize = 0;
    while i < v.len()
        invariant
            i <= v@.len(),
            forall|k: int| 0 <= k < i ==> !lex_leq(x@, views_of_strings(v@)[k]),
        decreases v@.len() - i,
    {
        if str_lex_leq(x.as_str(), v[i].as_str()) {
            return i;
        }
        i = i + 1;
    }
    i
}

/// Insertion sort under the lexicographic order, realising `sort_seqs`.
pub fn sort_strings(v: Vec<String>) -> (r: Vec<String>)
    ensures
        views_of_strings(r@) == sort_seqs(views_of_strings(v@)),
{
    let mut rest: Vec<String> = v;
    let ghost orig: Seq<Seq<char>> = views_of_strings(rest@);
    let mut out: Vec<String> = Vec::new();
    let ghost mut done: int = 0;
    proof {
        assert(views_of_strings(rest@) =~= orig.skip(0));
        assert(views_of_strings(out@) =~= sort_seqs(orig.take(0)));
    }
    while rest.len() > 0
        invariant
            0 <= done <= orig.len(),
            views_of_strings(rest@) =~= orig.skip(done),
            views_of_strings(out@) =~= sort_seqs(orig.take(done)),
        decreases rest@.len(),
    {
        let ghost rest_before: Seq<String> = rest@;
        proof {
            assert(views_of_strings(rest_before).len() == rest_before.len());
            assert(orig.skip(done).len() == orig.len() - done);
            assert(done < orig.len());
        }
        let s: String = rest.remove(0);
        proof {
            assert(rest@ =~= rest_before.drop_first());
            assert(views_of_strings(rest_before)[0] == rest_before[0]@);
            assert(orig.skip(done)[0] == orig[done]);
            assert(s@ == orig[done]);
        }
        let pos: usize = insert_pos(&out, &s);
        let ghost before: Seq<Seq<char>> = views_of_strings(out@);
        proof {
            lemma_insert_le_at(s@, before, pos as int);
        }
        out.insert(pos, s);
        proof {
            assert(views_of_strings(out@) =~= before.take(pos as int) + seq![orig[done]]
                + before.skip(pos as int));
            assert(orig.take(done + 1).drop_last() =~= orig.take(done));
            assert(orig.take(done + 1).last() == orig[done]);
            assert(views_of_strings(out@) =~= sort_seqs(orig.take(done + 1)));
            done = done + 1;
            assert forall|k: int| 0 <= k < rest@.len() implies views_of_strings(rest@)[k]
                == orig.skip(done)[k] by {
                assert(rest@[k] == rest_before[k + 1]);
                assert(orig.skip(done)[k] == orig[done + k]);
                assert(orig.skip(done - 1)[k + 1] == orig[done + k]);
                assert(views_of_strings(rest_before)[k + 1] == rest_before[k + 1]@);
            }
            assert(views_of_strings(rest@) =~= orig.skip(done));
        }
    }
    proof {
        assert(orig.take(done) =~= orig);
    }
    out
}

/// Concatenation of the strings with `sep` between them, realising
/// `join_with`.
pub fn join_strings(parts: &Vec<String>, sep: &str) -> (r: String)
    ensures
        r@ == join_with(views_of_strings(parts@), sep@),
{
    let mut r: String = String::new();
    let mut i: usize = 0;
    while i < parts.len()
        invariant
            i <= parts@.len(),
            r@ == join_with(views_of_strings(parts@).take(i as int), sep@),
        decreases parts@.len() - i,
    {
        if i > 0 {
            r.append(sep);
        }
        r.append(parts[i].as_str());
        proof {
            lemma_join_with_push(views_of_strings(parts@).take(i as int), sep@, parts@[i as int]@);
            assert(views_of_strings(parts@).take(i + 1) =~= views_of_strings(parts@).take(
                i as int,
            ).push(parts@[i as int]@));
        }
        i = i + 1;
    }
    proof {
        assert(views_of_strings(parts@).take(parts@.len() as int) =~= views_of_strings(parts@));
    }
    r
}

/// Rewrites each `[]` to `Array`, realising `replace_brackets`.
pub fn replace_brackets_str(s: &str) -> (r: String)
    ensures
        r@ == replace_brackets(s@),
{
    let n: usize = s.unicode_len();
    let mut r: String = String::new();
    let mut i: usize = 0;
    proof {
        assert(s@.skip(0) =~= s@);
    }
    while i < n
        invariant
            i <= n,
            n == s@.len(),
            r@ + replace_brackets(s@.skip(i as int)) =~= replace_brackets(s@),
        decreases n - i,
    {
        let c: char = s.get_char(i);
        let ghost old_r: Seq<char> = r@;
        proof {
            assert(s@.skip(i as int)[0] == s@[i as int]);
        }
        if c == '[' && i + 1 < n && s.get_char(i + 1) == ']' {
            r.append("Array");
            proof {
                reveal_strlit("Array");
                assert("Array"@ =~= array_token());
                assert(s@.skip(i as int)[1] == s@[i as int + 1]);
                assert(s@.skip(i as int).skip(2) =~= s@.skip(i + 2));
                assert(replace_brackets(s@.skip(i as int)) =~= array_token() + replace_brackets(
                    s@.skip(i + 2),
                ));
                assert(r@ + replace_brackets(s@.skip(i + 2)) =~= old_r + replace_brackets(
                    s@.skip(i as int),
                ));
            }
            i = i + 2;
        } else {
            push_char(&mut r, c);
            proof {
                if s@.skip(i as int).len() >= 2 {
                    assert(s@.skip(i as int)[1] == s@[i as int + 1]);
                }
                assert(s@.skip(i as int).drop_first() =~= s@.skip(i + 1));
                assert(r@ + replace_brackets(s@.skip(i + 1)) =~= old_r + replace_brackets(
                    s@.skip(i as int),
                ));
            }
            i = i + 1;
        }
    }
    proof {
        assert(s@.skip(n as int).len() == 0);
        assert(r@ + replace_brackets(s@.skip(n as int)) =~= r@);
    }
    r
}

/// Escapes double quotes with a backslash, realising `escape_quotes`.
pub fn escape_quotes_str(s: &str) -> (r: String)
    ensures
        r@ == escape_quotes(s@),
{
    let n: usize = s.unicode_len();
    let mut r: String = String::new();
    let mut i: usize = 0;
    proof {
        assert(s@.skip(0) =~= s@);
    }
    while i < n
        invariant
            i <= n,
            n == s@.len(),
            r@ + escape_quotes(s@.skip(i as int)) =~= escape_quotes(s@),
        decreases n - i,
    {
        let c: char = s.get_char(i);
        proof {
            assert(s@.skip(i as int)[0] == s@[i as int]);
        }
        let ghost old_r: Seq<char> = r@;
        if c == '"' {
            push_char(&mut r, '\\');
            push_char(&mut r, '"');
            proof {
                assert(r@ =~= old_r + seq!['\\', '"']);
            }
        } else {
            push_char(&mut r, c);
        }
        proof {
            assert(s@.skip(i as int).drop_first() =~= s@.skip(i + 1));
            assert(r@ + escape_quotes(s@.skip(i + 1)) =~= old_r + escape_quotes(
                s@.skip(i as int),
            ));
        }
        i = i + 1;
    }
    proof {
        assert(s@.skip(n as int).len() == 0);
        assert(r@ + escape_quotes(s@.skip(n as int)) =~= r@);
    }
    r
}

} // verus!
