//! Cutting text into lines and whitespace-separated fields.

use vstd::prelude::*;

verus! {

/// What ends one piece of text and starts the next.
#[derive(Clone, Copy, Debug)]
pub enum Separator {
    /// One given character.
    Char(char),
    /// Any ASCII whitespace character.
    Whitespace,
}

/// ASCII whitespace: space, tab, line feed, form feed, carriage return.
pub open spec fn is_space(c: char) -> bool {
    c == ' ' || c == '\t' || c == '\n' || c == '\x0C' || c == '\r'
}

impl Separator {
    /// Whether `c` is a separating character.
    pub open spec fn separates(self, c: char) -> bool {
        match self {
            Separator::Char(sep) => c == sep,
            Separator::Whitespace => is_space(c),
        }
    }

    /// Whether `c` is a separating character.
    pub fn matches(&self, c: char) -> (r: bool)
        ensures
            r == self.separates(c),
    {
        match self {
            Separator::Char(sep) => c == *sep,
            Separator::Whitespace => c == ' ' || c == '\t' || c == '\n' || c == '\x0C' || c
                == '\r',
        }
    }
}

/// The pieces of `s` between separating characters, empty pieces
/// included. There is always one piece more than there are separating
/// characters in `s`.
pub open spec fn split(s: Seq<char>, sep: Separator) -> Seq<Seq<char>>
    decreases s.len(),
{
    if s.len() == 0 {
        seq![Seq::<char>::empty()]
    } else {
        let before = split(s.drop_last(), sep);
        if sep.separates(s.last()) {
            before.push(Seq::<char>::empty())
        } else {
            before.update(before.len() - 1, before.last().push(s.last()))
        }
    }
}

/// The lines of `s`: its pieces between line feeds, without the empty
/// piece that follows a final line feed. The empty text has no line.
pub open spec fn lines(s: Seq<char>) -> Seq<Seq<char>> {
    let pieces = split(s, Separator::Char('\n'));
    if pieces.last().len() == 0 {
        pieces.drop_last()
    } else {
        pieces
    }
}

/// The fields of `s`: its maximal runs of characters that are not ASCII
/// whitespace, in order.
pub open spec fn fields(s: Seq<char>) -> Seq<Seq<char>> {
    split(s, Separator::Whitespace).filter(|piece: Seq<char>| piece.len() > 0)
}

/// The texts that a vector of character vectors stands for.
pub open spec fn texts(v: Seq<Vec<char>>) -> Seq<Seq<char>> {
    v.map_values(|piece: Vec<char>| piece@)
}

/// Every text has at least one piece.
pub proof fn lemma_split_nonempty(s: Seq<char>, sep: Separator)
    ensures
        split(s, sep).len() >= 1,
    decreases s.len(),
{
    if s.len() > 0 {
        lemma_split_nonempty(s.drop_last(), sep);
    }
}

/// `String::from_iter` of std, over the characters of `chars`: the string
/// that holds them in order.
#[verifier::external_body]
pub(crate) fn text_of(chars: &Vec<char>) -> (out: String)
    ensures
        out@ == chars@,
{
    chars.iter().collect()
}

/// The characters of `s`, in order.
pub fn chars_of(s: &str) -> (out: Vec<char>)
    ensures
        out@ == s@,
{
    broadcast use vstd::string::group_string_axioms;

    let mut out: Vec<char> = Vec::new();
    let it = s.chars();
    for c in iter: it
        invariant
            iter.seq() == s@,
            out@ == s@.take(iter.index()),
    {
        out.push(c);
    }
    out
}

/// Cuts `s` at every separating character.
pub fn split_text(s: &Vec<char>, sep: Separator) -> (out: Vec<Vec<char>>)
    ensures
        texts(out@) == split(s@, sep),
{
    let mut done: Vec<Vec<char>> = Vec::new();
    let mut current: Vec<char> = Vec::new();
    let mut i: usize = 0;
    while i < s.len()
        invariant
            0 <= i <= s.len(),
            texts(done@).push(current@) == split(s@.take(i as int), sep),
        decreases s.len() - i,
    {
        let c = s[i];
        proof {
            let prefix = s@.take(i + 1);
            assert(prefix.drop_last() == s@.take(i as int));
            assert(prefix.last() == c);
        }
        if sep.matches(c) {
            proof {
                assert(texts(done@.push(current)) == texts(done@).push(current@));
            }
            done.push(current);
            current = Vec::new();
        } else {
            proof {
                let before = texts(done@).push(current@);
                assert(before.update(before.len() - 1, before.last().push(c)) == texts(
                    done@,
                ).push(current@.push(c)));
            }
            current.push(c);
        }
        i += 1;
    }
    proof {
        assert(s@.take(s.len() as int) == s@);
        assert(texts(done@.push(current)) == texts(done@).push(current@));
    }
    done.push(current);
    done
}

/// The lines of `s`, in order.
pub fn split_lines(s: &Vec<char>) -> (out: Vec<Vec<char>>)
    ensures
        texts(out@) == lines(s@),
{
    let mut pieces = split_text(s, Separator::Char('\n'));
    proof {
        lemma_split_nonempty(s@, Separator::Char('\n'));
        assert(texts(pieces@).len() == pieces@.len());
        assert(texts(pieces@).last() == pieces@.last()@);
    }
    let n = pieces.len();
    if pieces[n - 1].len() == 0 {
        proof {
            assert(texts(pieces@.drop_last()) == texts(pieces@).drop_last());
        }
        pieces.pop();
    }
    pieces
}

/// The whitespace-separated fields of `s`, in order.
pub fn split_fields(s: &Vec<char>) -> (out: Vec<Vec<char>>)
    ensures
        texts(out@) == fields(s@),
{
    let pieces = split_text(s, Separator::Whitespace);
    let ghost keep = |piece: Seq<char>| piece.len() > 0;
    let mut out: Vec<Vec<char>> = Vec::new();
    let mut i: usize = 0;
    while i < pieces.len()
        invariant
            0 <= i <= pieces.len(),
            keep == |piece: Seq<char>| piece.len() > 0,
            texts(out@) == texts(pieces@).take(i as int).filter(keep),
        decreases pieces.len() - i,
    {
        proof {
            let all = texts(pieces@);
            let next = all.take(i + 1);
            assert(next.drop_last() == all.take(i as int));
            assert(next.last() == pieces@[i as int]@);
            reveal(Seq::filter);
        }
        if pieces[i].len() > 0 {
            proof {
                assert(texts(out@.push(pieces@[i as int])) == texts(out@).push(
                    pieces@[i as int]@,
                ));
            }
            out.push(pieces[i].clone());
        }
        i += 1;
    }
    proof {
        assert(texts(pieces@).take(pieces.len() as int) == texts(pieces@));
    }
    out
}

/// The text that holds the given lines, a line feed behind each.
pub open spec fn join_lines(all: Seq<Seq<char>>) -> Seq<char>
    decreases all.len(),
{
    if all.len() == 0 {
        Seq::empty()
    } else {
        join_lines(all.drop_last()) + all.last().push('\n')
    }
}

/// Whether no line holds a line feed.
pub open spec fn single_lines(all: Seq<Seq<char>>) -> bool {
    forall|i: int, j: int|
        0 <= i < all.len() && 0 <= j < all[i].len() ==> (#[trigger] all[i][j]) != '\n'
}

/// Text without a separating character, put behind other text, extends
/// the last piece of that text.
proof fn lemma_split_append(s: Seq<char>, more: Seq<char>, sep: Separator)
    requires
        forall|j: int| 0 <= j < more.len() ==> !sep.separates(#[trigger] more[j]),
    ensures
        split(s + more, sep) == split(s, sep).drop_last().push(split(s, sep).last() + more),
    decreases more.len(),
{
    lemma_split_nonempty(s, sep);
    let pieces = split(s, sep);
    if more.len() == 0 {
        assert(s + more == s);
        assert(pieces.last() + more == pieces.last());
        assert(pieces.drop_last().push(pieces.last()) == pieces);
    } else {
        let shorter = more.drop_last();
        lemma_split_append(s, shorter, sep);
        assert((s + more).drop_last() == s + shorter);
        assert((s + more).last() == more.last());
        assert(!sep.separates(more[more.len() - 1]));
        let before = split(s + shorter, sep);
        assert(before.last().push(more.last()) == pieces.last() + more);
        assert(before.update(before.len() - 1, before.last().push(more.last()))
            == pieces.drop_last().push(pieces.last() + more));
    }
}

/// The lines of a text made of lines are those lines.
pub proof fn lemma_lines_of_join(all: Seq<Seq<char>>)
    requires
        single_lines(all),
    ensures
        split(join_lines(all), Separator::Char('\n')) == all.push(Seq::empty()),
        lines(join_lines(all)) == all,
    decreases all.len(),
{
    let sep = Separator::Char('\n');
    if all.len() == 0 {
        assert(split(join_lines(all), sep) == all.push(Seq::empty()));
    } else {
        let rest = all.drop_last();
        let line = all.last();
        assert(single_lines(rest)) by {
            assert forall|i: int, j: int|
                0 <= i < rest.len() && 0 <= j < rest[i].len() implies (#[trigger] rest[i][j])
                != '\n' by {
                assert(all[i][j] != '\n');
            }
        }
        lemma_lines_of_join(rest);
        let head = join_lines(rest);
        assert forall|j: int| 0 <= j < line.len() implies !sep.separates(#[trigger] line[j]) by {
            assert(all[all.len() - 1][j] != '\n');
        }
        lemma_split_append(head, line, sep);
        let whole = join_lines(all);
        assert(whole == (head + line).push('\n'));
        assert(whole.drop_last() == head + line);
        assert(split(head, sep).last() + line == line);
        assert(split(head, sep).drop_last() == rest);
        assert(rest.push(line) == all);
    }
    assert(all.push(Seq::<char>::empty()).drop_last() == all);
}

} // verus!
