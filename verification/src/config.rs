//! The per-instance flag lists.
//!
//! The configuration is a text with one line per solver instance. Each line
//! holds that instance's flags, separated by white space. The text is taken
//! and the flags are given as characters; turning them from and into
//! strings is left to the caller.

use vstd::prelude::*;
use vstd::slice::slice_subrange;

verus! {

/// Whether a character is white space: one of the characters that Unicode
/// gives the property `White_Space`.
pub open spec fn is_space(c: char) -> bool {
    let code = c as u32;
    ||| 0x09 <= code <= 0x0D
    ||| code == 0x20
    ||| code == 0x85
    ||| code == 0xA0
    ||| code == 0x1680
    ||| 0x2000 <= code <= 0x200A
    ||| code == 0x2028
    ||| code == 0x2029
    ||| code == 0x202F
    ||| code == 0x205F
    ||| code == 0x3000
}

/// `pieces` with `c` added to the end of its last piece.
pub open spec fn extend_last(pieces: Seq<Seq<char>>, c: char) -> Seq<Seq<char>> {
    pieces.drop_last().push(pieces.last().push(c))
}

/// The flags on a line: its longest runs of characters that are not white
/// space, in order.
pub open spec fn tokens(line: Seq<char>) -> Seq<Seq<char>>
    decreases line.len(),
{
    if line.len() == 0 {
        Seq::empty()
    } else {
        let head = line.drop_last();
        if is_space(line.last()) {
            tokens(head)
        } else if head.len() > 0 && !is_space(head.last()) {
            extend_last(tokens(head), line.last())
        } else {
            tokens(head).push(seq![line.last()])
        }
    }
}

/// The text cut at every line feed. There is always a last piece, behind
/// the last line feed; it is empty where the text ends in one, or is empty.
pub open spec fn pieces(text: Seq<char>) -> Seq<Seq<char>>
    decreases text.len(),
{
    if text.len() == 0 {
        seq![Seq::empty()]
    } else if text.last() == '\n' {
        pieces(text.drop_last()).push(Seq::empty())
    } else {
        extend_last(pieces(text.drop_last()), text.last())
    }
}

/// The lines of a text: its pieces between line feeds, without the piece
/// behind the last line feed where that is empty.
pub open spec fn lines(text: Seq<char>) -> Seq<Seq<char>> {
    let all = pieces(text);
    if all.last().len() == 0 {
        all.drop_last()
    } else {
        all
    }
}

/// The flags of each line.
pub open spec fn token_lists(lines: Seq<Seq<char>>) -> Seq<Seq<Seq<char>>> {
    lines.map_values(|line: Seq<char>| tokens(line))
}

/// The flag lists that a configuration text holds, one for each line.
pub open spec fn instance_configs(text: Seq<char>) -> Seq<Seq<Seq<char>>> {
    token_lists(lines(text))
}

/// The characters of each word, in order.
pub open spec fn words_view(words: Seq<Vec<char>>) -> Seq<Seq<char>> {
    words.map_values(|word: Vec<char>| word@)
}

/// The characters of each word of each list, in order.
pub open spec fn lists_view(lists: Seq<Vec<Vec<char>>>) -> Seq<Seq<Seq<char>>> {
    lists.map_values(|list: Vec<Vec<char>>| words_view(list@))
}

/// Whether a character is white space.
pub fn is_whitespace(c: char) -> (space: bool)
    ensures
        space == is_space(c),
{
    let code: u32 = c as u32;
    (0x09 <= code && code <= 0x0D) || code == 0x20 || code == 0x85 || code == 0xA0 || code
        == 0x1680 || (0x2000 <= code && code <= 0x200A) || code == 0x2028 || code == 0x2029
        || code == 0x202F || code == 0x205F || code == 0x3000
}

/// Cuts a line into its flags.
pub fn split_flags(line: &[char]) -> (flags: Vec<Vec<char>>)
    ensures
        words_view(flags@) == tokens(line@),
{
    let mut flags: Vec<Vec<char>> = Vec::new();
    let mut word: Vec<char> = Vec::new();
    let mut i: usize = 0;
    assert(words_view(flags@) =~= tokens(line@.take(0)));
    while i < line.len()
        invariant
            i <= line.len(),
            word@.len() > 0 <==> i > 0 && !is_space(line@[i - 1]),
            word@.len() == 0 ==> words_view(flags@) == tokens(line@.take(i as int)),
            word@.len() > 0 ==> words_view(flags@).push(word@) == tokens(line@.take(i as int)),
        decreases line.len() - i,
    {
        let c: char = line[i];
        proof {
            assert(line@.take(i + 1).drop_last() =~= line@.take(i as int));
            assert(line@.take(i + 1).last() == c);
            if i > 0 {
                assert(line@.take(i as int).last() == line@[i - 1]);
            }
        }
        if is_whitespace(c) {
            if word.len() > 0 {
                proof {
                    assert(words_view(flags@.push(word)) =~= words_view(flags@).push(word@));
                }
                flags.push(word);
                word = Vec::new();
            }
        } else {
            proof {
                if word@.len() > 0 {
                    assert(extend_last(words_view(flags@).push(word@), c) =~= words_view(
                        flags@,
                    ).push(word@.push(c)));
                } else {
                    assert(seq![c] =~= word@.push(c));
                }
            }
            word.push(c);
        }
        i = i + 1;
    }
    proof {
        assert(line@.take(line.len() as int) =~= line@);
    }
    if word.len() > 0 {
        proof {
            assert(words_view(flags@.push(word)) =~= words_view(flags@).push(word@));
        }
        flags.push(word);
    }
    flags
}

/// Reads the flag lists out of a configuration text: one list for each
/// line, in order. A line feed ends a line; the last line need not have
/// one. An empty line stands for an instance without flags of its own.
pub fn parse_instance_config(text: &[char]) -> (configs: Vec<Vec<Vec<char>>>)
    ensures
        lists_view(configs@) == instance_configs(text@),
{
    let mut configs: Vec<Vec<Vec<char>>> = Vec::new();
    let mut start: usize = 0;
    let mut i: usize = 0;
    let ghost mut done: Seq<Seq<char>> = Seq::empty();
    assert(text@.subrange(0, 0) =~= Seq::<char>::empty());
    assert(text@.take(0) =~= Seq::<char>::empty());
    assert(pieces(text@.take(0)) =~= done.push(text@.subrange(0, 0)));
    assert(lists_view(configs@) =~= token_lists(done));
    while i < text.len()
        invariant
            start <= i <= text.len(),
            pieces(text@.take(i as int)) == done.push(text@.subrange(start as int, i as int)),
            lists_view(configs@) == token_lists(done),
        decreases text.len() - i,
    {
        proof {
            assert(text@.take(i + 1).drop_last() =~= text@.take(i as int));
            assert(text@.take(i + 1).last() == text@[i as int]);
        }
        if text[i] == '\n' {
            let line = slice_subrange(text, start, i);
            let flags = split_flags(line);
            proof {
                let piece = text@.subrange(start as int, i as int);
                assert(text@.subrange(i + 1, i + 1) =~= Seq::<char>::empty());
                assert(lists_view(configs@.push(flags)) =~= lists_view(configs@).push(
                    words_view(flags@),
                ));
                assert(token_lists(done.push(piece)) =~= token_lists(done).push(tokens(piece)));
                done = done.push(piece);
            }
            configs.push(flags);
            start = i + 1;
        } else {
            proof {
                let piece = text@.subrange(start as int, i as int);
                assert(piece.push(text@[i as int]) =~= text@.subrange(start as int, i + 1));
                assert(done.push(piece).drop_last() =~= done);
            }
        }
        i = i + 1;
    }
    proof {
        assert(text@.take(text.len() as int) =~= text@);
    }
    if start < text.len() {
        let line = slice_subrange(text, start, text.len());
        let flags = split_flags(line);
        proof {
            let piece = text@.subrange(start as int, text.len() as int);
            assert(lists_view(configs@.push(flags)) =~= lists_view(configs@).push(
                    words_view(flags@),
                ));
                assert(token_lists(done.push(piece)) =~= token_lists(done).push(tokens(piece)));
        }
        configs.push(flags);
    } else {
        proof {
            assert(done.push(text@.subrange(start as int, text.len() as int)).drop_last()
                =~= done);
        }
    }
    configs
}

/// Every flag has at least one character, and none that is white space.
pub proof fn lemma_tokens_are_flags(line: Seq<char>, k: int)
    requires
        0 <= k < tokens(line).len(),
    ensures
        tokens(line)[k].len() > 0,
        forall|i: int| 0 <= i < tokens(line)[k].len() ==> !is_space(#[trigger] tokens(line)[k][i]),
    decreases line.len(),
{
    if line.len() > 0 {
        let head = line.drop_last();
        let c = line.last();
        if is_space(c) {
            lemma_tokens_are_flags(head, k);
        } else if head.len() > 0 && !is_space(head.last()) {
            lemma_line_ending_in_flag(head);
            if k < tokens(head).len() - 1 {
                lemma_tokens_are_flags(head, k);
            } else {
                lemma_tokens_are_flags(head, tokens(head).len() - 1);
            }
        } else if k < tokens(head).len() {
            lemma_tokens_are_flags(head, k);
        }
    }
}

/// A line that does not end in white space ends in a flag.
proof fn lemma_line_ending_in_flag(line: Seq<char>)
    requires
        line.len() > 0,
        !is_space(line.last()),
    ensures
        tokens(line).len() > 0,
    decreases line.len(),
{
    let head = line.drop_last();
    if head.len() > 0 && !is_space(head.last()) {
        lemma_line_ending_in_flag(head);
    }
}

/// A line without flags is all white space, and a line of white space has
/// no flags.
pub proof fn lemma_blank_line_has_no_flags(line: Seq<char>)
    ensures
        tokens(line).len() == 0 <==> forall|i: int|
            0 <= i < line.len() ==> is_space(#[trigger] line[i]),
    decreases line.len(),
{
    if line.len() > 0 {
        let head = line.drop_last();
        lemma_blank_line_has_no_flags(head);
        assert(line.last() == line[line.len() - 1]);
        if is_space(line.last()) {
            if tokens(head).len() == 0 {
                assert forall|i: int| 0 <= i < line.len() implies is_space(#[trigger] line[i]) by {
                    if i < head.len() {
                        assert(head[i] == line[i]);
                    }
                }
            } else {
                if forall|i: int| 0 <= i < line.len() ==> is_space(#[trigger] line[i]) {
                    assert forall|i: int| 0 <= i < head.len() implies is_space(
                        #[trigger] head[i],
                    ) by {
                        assert(head[i] == line[i]);
                    }
                }
            }
        } else if head.len() > 0 && !is_space(head.last()) {
            lemma_line_ending_in_flag(head);
        }
    }
}

/// A text has at least one piece, and no piece holds a line feed.
pub proof fn lemma_pieces_are_lines(text: Seq<char>, k: int)
    requires
        0 <= k < pieces(text).len(),
    ensures
        pieces(text).len() >= 1,
        forall|i: int| 0 <= i < pieces(text)[k].len() ==> #[trigger] pieces(text)[k][i] != '\n',
    decreases text.len(),
{
    if text.len() > 0 {
        let head = text.drop_last();
        lemma_pieces_not_empty(head);
        if text.last() == '\n' {
            if k < pieces(head).len() {
                lemma_pieces_are_lines(head, k);
            }
        } else if k < pieces(head).len() - 1 {
            lemma_pieces_are_lines(head, k);
        } else {
            lemma_pieces_are_lines(head, pieces(head).len() - 1);
        }
    }
}

/// A text has at least one piece.
proof fn lemma_pieces_not_empty(text: Seq<char>)
    ensures
        pieces(text).len() >= 1,
    decreases text.len(),
{
    if text.len() > 0 {
        lemma_pieces_not_empty(text.drop_last());
    }
}

} // verus!
