//! Text helpers over `Seq<char>` views, each proved against a direct spec.

use vstd::prelude::*;

verus! {

/// Calls std's `String::push`; the contract claims that the string gains
/// exactly `c` at its end, as its documentation says.
#[verifier::external_body]
pub(crate) fn push_char(s: &mut String, c: char)
    ensures
        final(s)@ == old(s)@.push(c),
{
    s.push(c);
}

/// Whether two strings hold the same characters.
pub fn str_eq(a: &str, b: &str) -> (r: bool)
    ensures
        r == (a@ == b@),
{
    let n = a.unicode_len();
    if n != b.unicode_len() {
        return false;
    }
    let mut i: usize = 0;
    while i < n
        invariant
            n == a@.len(),
            n == b@.len(),
            i <= n,
            forall|j: int| 0 <= j < i ==> a@[j] == b@[j],
        decreases n - i,
    {
        if a.get_char(i) != b.get_char(i) {
            return false;
        }
        i = i + 1;
    }
    assert(a@ =~= b@);
    true
}

/// `s` with every space character removed.
pub open spec fn without_spaces(s: Seq<char>) -> Seq<char>
    decreases s.len(),
{
    if s.len() == 0 {
        Seq::empty()
    } else if s.last() == ' ' {
        without_spaces(s.drop_last())
    } else {
        without_spaces(s.drop_last()).push(s.last())
    }
}

/// The pieces of `s` between occurrences of `sep`, as `str::split` gives
/// them: one more piece than there are separators, empty pieces included.
pub open spec fn split_on(s: Seq<char>, sep: char) -> Seq<Seq<char>>
    decreases s.len(),
{
    if s.len() == 0 {
        seq![Seq::empty()]
    } else {
        let pieces = split_on(s.drop_last(), sep);
        if s.last() == sep {
            pieces.push(Seq::empty())
        } else {
            pieces.update(pieces.len() - 1, pieces.last().push(s.last()))
        }
    }
}

/// Splitting always yields at least one piece.
pub proof fn lemma_split_nonempty(s: Seq<char>, sep: char)
    ensures
        split_on(s, sep).len() >= 1,
    decreases s.len(),
{
    if s.len() > 0 {
        lemma_split_nonempty(s.drop_last(), sep);
    }
}

/// The pieces joined back with `sep` between each two.
pub open spec fn join_with(pieces: Seq<Seq<char>>, sep: char) -> Seq<char>
    decreases pieces.len(),
{
    if pieces.len() == 0 {
        Seq::empty()
    } else if pieces.len() == 1 {
        pieces[0]
    } else {
        join_with(pieces.drop_last(), sep).push(sep) + pieces.last()
    }
}

/// Splitting at `sep` and joining back with `sep` gives the text back, and
/// no piece holds `sep`.
pub proof fn lemma_split_join(s: Seq<char>, sep: char)
    ensures
        join_with(split_on(s, sep), sep) == s,
        forall|i: int|
            0 <= i < split_on(s, sep).len() ==> !(#[trigger] split_on(s, sep)[i]).contains(sep),
    decreases s.len(),
{
    if s.len() == 0 {
        assert(split_on(s, sep) =~= seq![Seq::<char>::empty()]);
        assert(s =~= Seq::<char>::empty());
    } else {
        let t = s.drop_last();
        let c = s.last();
        lemma_split_join(t, sep);
        lemma_split_nonempty(t, sep);
        let p = split_on(t, sep);
        if c == sep {
            let q = p.push(Seq::empty());
            assert(q.drop_last() =~= p);
            assert(join_with(q, sep) =~= join_with(p, sep).push(sep));
            assert(s =~= t.push(c));
            assert forall|i: int| 0 <= i < q.len() implies !(#[trigger] q[i]).contains(sep) by {
                if i < p.len() {
                    assert(q[i] == p[i]);
                }
            }
        } else {
            let last = p.last().push(c);
            let q = p.update(p.len() - 1, last);
            assert(s =~= t.push(c));
            if p.len() == 1 {
                assert(join_with(q, sep) == q[0]);
                assert(join_with(p, sep) == p[0]);
                assert(q[0] =~= p[0].push(c));
            } else {
                assert(q.drop_last() =~= p.drop_last());
                assert(join_with(q, sep) =~= join_with(p.drop_last(), sep).push(sep) + last);
                assert(join_with(p, sep) =~= join_with(p.drop_last(), sep).push(sep) + p.last());
            }
            assert forall|i: int| 0 <= i < q.len() implies !(#[trigger] q[i]).contains(sep) by {
                if i < p.len() - 1 {
                    assert(q[i] == p[i]);
                } else {
                    assert(!p[i].contains(sep));
                    if q[i].contains(sep) {
                        let j = choose|j: int| 0 <= j < q[i].len() && q[i][j] == sep;
                        if j < p[i].len() {
                            assert(p[i][j] == sep);
                        }
                    }
                }
            }
        }
    }
}

/// `s` with every backtick and closing parenthesis preceded by a backslash,
/// as two successive `str::replace` calls produce it.
pub open spec fn escape_markdown_spec(s: Seq<char>) -> Seq<char>
    decreases s.len(),
{
    if s.len() == 0 {
        Seq::empty()
    } else if s.last() == '`' || s.last() == ')' {
        escape_markdown_spec(s.drop_last()).push('\\').push(s.last())
    } else {
        escape_markdown_spec(s.drop_last()).push(s.last())
    }
}

/// Escapes backticks and closing parentheses with a backslash.
pub fn escape_markdown(s: &str) -> (r: String)
    ensures
        r@ == escape_markdown_spec(s@),
{
    let mut r = String::new();
    for c in it: s.chars()
        invariant
            it.seq() == s@,
            r@ == escape_markdown_spec(s@.take(it.index() as int)),
    {
        assert(s@.take(it.index() + 1).drop_last() == s@.take(it.index() as int));
        if c == '`' || c == ')' {
            push_char(&mut r, '\\');
        }
        push_char(&mut r, c);
    }
    assert(s@.take(s@.len() as int) == s@);
    r
}

/// The lines of `lines` joined with a newline between each two.
pub open spec fn join_lines(lines: Seq<Seq<char>>) -> Seq<char>
    decreases lines.len(),
{
    if lines.len() == 0 {
        Seq::empty()
    } else if lines.len() == 1 {
        lines[0]
    } else {
        join_lines(lines.drop_last()) + seq!['\n'] + lines.last()
    }
}

/// The extension of a file name as `Path::extension` finds it: the text after
/// the last dot, when there is a dot that does not begin the name; `None` for
/// `..`.
pub open spec fn extension_spec(name: Seq<char>) -> Option<Seq<char>> {
    if name == seq!['.', '.'] {
        None
    } else {
        match last_dot(name) {
            Some(i) => if i > 0 {
                Some(name.subrange(i + 1, name.len() as int))
            } else {
                None
            },
            None => None,
        }
    }
}

/// The position of the last dot in `s`.
pub open spec fn last_dot(s: Seq<char>) -> Option<int>
    decreases s.len(),
{
    if s.len() == 0 {
        None
    } else if s.last() == '.' {
        Some(s.len() - 1)
    } else {
        last_dot(s.drop_last())
    }
}

/// The last dot is a dot with no dot after it; without one, `s` has no dot.
pub proof fn lemma_last_dot(s: Seq<char>)
    ensures
        last_dot(s) matches Some(i) ==> 0 <= i < s.len() && s[i] == '.' && forall|j: int|
            i < j < s.len() ==> s[j] != '.',
        last_dot(s) is None ==> forall|j: int| 0 <= j < s.len() ==> s[j] != '.',
    decreases s.len(),
{
    if s.len() > 0 {
        let t = s.drop_last();
        lemma_last_dot(t);
        assert forall|j: int| 0 <= j < t.len() implies t[j] == s[j] by {}
    }
}

/// The extension of the file name `name`, as `Path::extension` gives it.
pub fn file_extension(name: &str) -> (r: Option<String>)
    ensures
        r matches Some(e) ==> extension_spec(name@) == Some(e@),
        r is None ==> extension_spec(name@) is None,
{
    let n = name.unicode_len();
    if n == 2 && name.get_char(0) == '.' && name.get_char(1) == '.' {
        assert(name@ =~= seq!['.', '.']);
        return None;
    }
    assert(name@ != seq!['.', '.']) by {
        if name@ == seq!['.', '.'] {
            assert(name@[0] == '.' && name@[1] == '.');
        }
    }
    let mut i: usize = n;
    while i > 0
        invariant
            n == name@.len(),
            i <= n,
            name@ != seq!['.', '.'],
            forall|j: int| i <= j < n ==> name@[j] != '.',
        decreases i,
    {
        if name.get_char(i - 1) == '.' {
            proof {
                lemma_last_dot(name@);
                assert(last_dot(name@) == Some(i - 1)) by {
                    if last_dot(name@) != Some(i - 1) {
                        match last_dot(name@) {
                            Some(k) => {
                                assert(name@[(i - 1) as int] == '.');
                            },
                            None => {},
                        }
                    }
                }
            }
            if i - 1 == 0 {
                return None;
            }
            let ext = name.substring_char(i, n);
            let owned = ext.to_owned();
            assert(extension_spec(name@) == Some(owned@));
            return Some(owned);
        }
        i = i - 1;
    }
    proof {
        lemma_last_dot(name@);
        if last_dot(name@) is Some {
            let k = last_dot(name@)->0;
            assert(name@[k] == '.');
        }
    }
    None
}

} // verus!
