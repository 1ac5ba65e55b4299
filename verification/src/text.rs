//! Character-sequence utilities shared by the subscription matcher and the
//! header codec: extracting the characters of a string, splitting on a
//! separator, and trimming surrounding blanks.

use vstd::prelude::*;

verus! {

/// Splitting a character sequence on `/`, in the manner of an iterator over
/// separated fields: the empty sequence yields one empty field, and every
/// separator opens a new field.
pub open spec fn split_slash(s: Seq<char>) -> Seq<Seq<char>>
    decreases s.len(),
{
    if s.len() == 0 {
        seq![Seq::<char>::empty()]
    } else {
        let rest = split_slash(s.drop_first());
        if s[0] == '/' {
            seq![Seq::<char>::empty()] + rest
        } else {
            seq![seq![s[0]] + rest[0]] + rest.drop_first()
        }
    }
}

pub proof fn lemma_split_slash_len(s: Seq<char>)
    ensures
        split_slash(s).len() >= 1,
    decreases s.len(),
{
    if s.len() > 0 {
        lemma_split_slash_len(s.drop_first());
    }
}

/// The index of the first occurrence of `c` in `s`, or -1 when absent.
pub open spec fn first_index(s: Seq<char>, c: char) -> int
    decreases s.len(),
{
    if s.len() == 0 {
        -1
    } else if s[0] == c {
        0
    } else {
        let r = first_index(s.drop_first(), c);
        if r < 0 {
            -1
        } else {
            r + 1
        }
    }
}

pub proof fn lemma_first_index_props(s: Seq<char>, c: char)
    ensures
        first_index(s, c) >= 0 ==> {
            &&& first_index(s, c) < s.len()
            &&& s[first_index(s, c)] == c
            &&& forall|j: int| 0 <= j < first_index(s, c) ==> s[j] != c
        },
        first_index(s, c) < 0 ==> forall|j: int| 0 <= j < s.len() ==> s[j] != c,
    decreases s.len(),
{
    if s.len() > 0 && s[0] != c {
        lemma_first_index_props(s.drop_first(), c);
        assert(forall|j: int| 1 <= j < s.len() ==> s[j] == s.drop_first()[j - 1]);
    }
}

/// A blank character, for trimming: the four ASCII whitespace characters.
pub open spec fn is_blank(c: char) -> bool {
    c == ' ' || c == '\t' || c == '\n' || c == '\r'
}

pub open spec fn trim_start_spec(s: Seq<char>) -> Seq<char>
    decreases s.len(),
{
    if s.len() > 0 && is_blank(s[0]) {
        trim_start_spec(s.drop_first())
    } else {
        s
    }
}

pub open spec fn trim_end_spec(s: Seq<char>) -> Seq<char>
    decreases s.len(),
{
    if s.len() > 0 && is_blank(s.last()) {
        trim_end_spec(s.drop_last())
    } else {
        s
    }
}

/// Both ends trimmed of blanks.
pub open spec fn trim_spec(s: Seq<char>) -> Seq<char> {
    trim_end_spec(trim_start_spec(s))
}

/// The characters of a string, as a vector.
pub fn str_chars(s: &str) -> (r: Vec<char>)
    ensures
        r@ == s@,
{
    let n = s.unicode_len();
    let mut r: Vec<char> = Vec::new();
    let mut i: usize = 0;
    while i < n
        invariant
            n == s@.len(),
            i <= n,
            r@ == s@.take(i as int),
        decreases n - i,
    {
        r.push(s.get_char(i));
        i += 1;
        proof {
            assert(r@ =~= s@.take(i as int));
        }
    }
    proof {
        assert(s@.take(n as int) =~= s@);
    }
    r
}

/// Whether two character vectors hold the same characters.
pub fn chars_eq(a: &Vec<char>, b: &Vec<char>) -> (r: bool)
    ensures
        r == (a@ == b@),
{
    if a.len() != b.len() {
        proof {
            assert(a@ != b@);
        }
        return false;
    }
    let mut i: usize = 0;
    while i < a.len()
        invariant
            a@.len() == b@.len(),
            i <= a@.len(),
            forall|j: int| 0 <= j < i ==> a@[j] == b@[j],
        decreases a@.len() - i,
    {
        if a[i] != b[i] {
            return false;
        }
        i += 1;
    }
    proof {
        assert(a@ =~= b@);
    }
    true
}

/// Splits a character vector on `/`.
pub fn split_slash_exec(cs: &Vec<char>) -> (r: Vec<Vec<char>>)
    ensures
        r.deep_view() == split_slash(cs@),
{
    let mut parts: Vec<Vec<char>> = Vec::new();
    let mut cur: Vec<char> = Vec::new();
    let mut i: usize = 0;
    proof {
        lemma_split_slash_len(cs@);
        assert(cs@.skip(0) =~= cs@);
        assert(split_slash(cs@) =~~= parts.deep_view() + seq![
            cur@ + split_slash(cs@.skip(0))[0],
        ] + split_slash(cs@.skip(0)).drop_first());
    }
    while i < cs.len()
        invariant
            i <= cs@.len(),
            split_slash(cs@) =~~= parts.deep_view() + seq![
                cur@ + split_slash(cs@.skip(i as int))[0],
            ] + split_slash(cs@.skip(i as int)).drop_first(),
            split_slash(cs@.skip(i as int)).len() >= 1,
        decreases cs@.len() - i,
    {
        let ghost pre = cs@.skip(i as int);
        let ghost old_parts = parts.deep_view();
        let ghost old_cur = cur@;
        proof {
            assert(pre.len() > 0);
            assert(pre.drop_first() =~= cs@.skip(i + 1));
            lemma_split_slash_len(cs@.skip(i + 1));
        }
        if cs[i] == '/' {
            parts.push(cur);
            cur = Vec::new();
            proof {
                assert(parts.deep_view() =~~= old_parts + seq![old_cur]);
                assert(split_slash(pre) =~~= seq![Seq::<char>::empty()] + split_slash(
                    cs@.skip(i + 1),
                ));
                assert(split_slash(cs@) =~~= parts.deep_view() + seq![
                    cur@ + split_slash(cs@.skip(i + 1))[0],
                ] + split_slash(cs@.skip(i + 1)).drop_first());
            }
        } else {
            cur.push(cs[i]);
            proof {
                assert(split_slash(pre) =~~= seq![seq![pre[0]] + split_slash(cs@.skip(i + 1))[0]]
                    + split_slash(cs@.skip(i + 1)).drop_first());
                assert(cur@ + split_slash(cs@.skip(i + 1))[0] =~= (old_cur + (seq![pre[0]]
                    + split_slash(cs@.skip(i + 1))[0])));
                assert(split_slash(cs@) =~~= parts.deep_view() + seq![
                    cur@ + split_slash(cs@.skip(i + 1))[0],
                ] + split_slash(cs@.skip(i + 1)).drop_first());
            }
        }
        i += 1;
    }
    proof {
        assert(cs@.skip(i as int) =~= Seq::<char>::empty());
        assert(split_slash(cs@.skip(i as int)) =~~= seq![Seq::<char>::empty()]);
        assert(cur@ + Seq::<char>::empty() =~= cur@);
    }
    let ghost old_parts = parts.deep_view();
    let ghost old_cur = cur@;
    parts.push(cur);
    proof {
        assert(parts.deep_view() =~~= old_parts + seq![old_cur]);
        assert(parts.deep_view() =~~= split_slash(cs@));
    }
    parts
}

/// Trims blanks from both ends of a character vector.
pub fn trim_exec(cs: &Vec<char>) -> (r: Vec<char>)
    ensures
        r@ == trim_spec(cs@),
{
    let mut start: usize = 0;
    proof {
        assert(cs@.skip(0) =~= cs@);
    }
    while start < cs.len() && is_blank_exec(cs[start])
        invariant
            start <= cs@.len(),
            trim_start_spec(cs@) == trim_start_spec(cs@.skip(start as int)),
        decreases cs@.len() - start,
    {
        proof {
            assert(cs@.skip(start as int).drop_first() =~= cs@.skip(start + 1));
        }
        start += 1;
    }
    proof {
        if start < cs@.len() {
            assert(trim_start_spec(cs@.skip(start as int)) =~= cs@.skip(start as int));
        } else {
            assert(cs@.skip(start as int) =~= Seq::<char>::empty());
        }
    }
    let mut end: usize = cs.len();
    while end > start && is_blank_exec(cs[end - 1])
        invariant
            start <= end <= cs@.len(),
            trim_start_spec(cs@) == cs@.skip(start as int),
            trim_end_spec(cs@.skip(start as int)) == trim_end_spec(
                cs@.subrange(start as int, end as int),
            ),
        decreases end,
    {
        proof {
            let cut = cs@.subrange(start as int, end as int);
            assert(cut.last() == cs@[end - 1]);
            assert(cut.drop_last() =~= cs@.subrange(start as int, end - 1));
        }
        end -= 1;
    }
    proof {
        let cut = cs@.subrange(start as int, end as int);
        if end > start {
            assert(trim_end_spec(cut) =~= cut);
        } else {
            assert(cut =~= Seq::<char>::empty());
        }
    }
    let mut r: Vec<char> = Vec::new();
    let mut i: usize = start;
    while i < end
        invariant
            start <= i <= end <= cs@.len(),
            r@ == cs@.subrange(start as int, i as int),
        decreases end - i,
    {
        r.push(cs[i]);
        proof {
            assert(r@ =~= cs@.subrange(start as int, i + 1));
        }
        i += 1;
    }
    r
}

/// The characters of `cs` from position `from` on.
pub fn chars_suffix(cs: &Vec<char>, from: usize) -> (r: Vec<char>)
    requires
        from <= cs@.len(),
    ensures
        r@ == cs@.skip(from as int),
{
    let mut r: Vec<char> = Vec::new();
    let mut i: usize = from;
    while i < cs.len()
        invariant
            from <= i <= cs@.len(),
            r@ == cs@.subrange(from as int, i as int),
        decreases cs@.len() - i,
    {
        r.push(cs[i]);
        proof {
            assert(r@ =~= cs@.subrange(from as int, i + 1));
        }
        i += 1;
    }
    proof {
        assert(cs@.subrange(from as int, i as int) =~= cs@.skip(from as int));
    }
    r
}

/// The first `upto` characters of `cs`.
pub fn chars_prefix(cs: &Vec<char>, upto: usize) -> (r: Vec<char>)
    requires
        upto <= cs@.len(),
    ensures
        r@ == cs@.take(upto as int),
{
    let mut r: Vec<char> = Vec::new();
    let mut i: usize = 0;
    while i < upto
        invariant
            i <= upto <= cs@.len(),
            r@ == cs@.subrange(0, i as int),
        decreases upto - i,
    {
        r.push(cs[i]);
        proof {
            assert(r@ =~= cs@.subrange(0, i + 1));
        }
        i += 1;
    }
    r
}

/// The characters of `cs` between `from` and `upto`.
pub fn chars_range(cs: &Vec<char>, from: usize, upto: usize) -> (r: Vec<char>)
    requires
        from <= upto <= cs@.len(),
    ensures
        r@ == cs@.subrange(from as int, upto as int),
{
    let mut r: Vec<char> = Vec::new();
    let mut i: usize = from;
    while i < upto
        invariant
            from <= i <= upto <= cs@.len(),
            r@ == cs@.subrange(from as int, i as int),
        decreases upto - i,
    {
        r.push(cs[i]);
        proof {
            assert(r@ =~= cs@.subrange(from as int, i + 1));
        }
        i += 1;
    }
    r
}

/// Relies on String::push: appends exactly the one character.
#[verifier::external_body]
pub fn push_char(s: &mut String, c: char)
    ensures
        final(s)@ == old(s)@.push(c),
{
    s.push(c);
}

/// Builds a string holding exactly the given characters.
pub fn chars_to_string(cs: &Vec<char>) -> (r: String)
    ensures
        r@ == cs@,
{
    let mut r = String::new();
    let mut i: usize = 0;
    while i < cs.len()
        invariant
            i <= cs@.len(),
            r@ == cs@.take(i as int),
        decreases cs@.len() - i,
    {
        push_char(&mut r, cs[i]);
        proof {
            assert(cs@.take(i as int).push(cs@[i as int]) =~= cs@.take(i + 1));
        }
        i += 1;
    }
    proof {
        assert(cs@.take(i as int) =~= cs@);
    }
    r
}

/// Whether the character is an ASCII blank.
pub fn is_blank_exec(c: char) -> (r: bool)
    ensures
        r == is_blank(c),
{
    c == ' ' || c == '\t' || c == '\n' || c == '\r'
}

} // verus!
