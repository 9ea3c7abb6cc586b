//! The file that records the scaling factors of a batch.
//!
//! The file is plain text: one decimal value on each line, every line ended
//! by a line feed, in the order of the samples.

use vstd::prelude::*;
use vstd::string::StringExecFns;
use crate::numeral::lemma_numeral_is_single_line;
use crate::scale::{denotes, Scale};

verus! {

/// The text of a file with the given lines, each ended by a line feed.
pub open spec fn file_text(lines: Seq<Seq<char>>) -> Seq<char>
    decreases lines.len(),
{
    if lines.len() == 0 {
        Seq::empty()
    } else {
        file_text(lines.drop_last()) + lines.last() + seq!['\n']
    }
}

/// The number of characters before the first line feed of `text`; all of
/// them where there is none.
pub open spec fn line_length(text: Seq<char>) -> nat
    decreases text.len(),
{
    if text.len() == 0 || text[0] == '\n' {
        0
    } else {
        1 + line_length(text.skip(1))
    }
}

/// The lines of a text, without the line feeds that end them. Characters
/// after the last line feed make a line of their own.
pub open spec fn lines_of(text: Seq<char>) -> Seq<Seq<char>>
    decreases text.len(),
    via lines_of_decreases
{
    if text.len() == 0 {
        Seq::empty()
    } else {
        let length = line_length(text) as int;
        let line = text.take(length);
        if length == text.len() {
            seq![line]
        } else {
            seq![line] + lines_of(text.skip(length + 1))
        }
    }
}

#[via_fn]
proof fn lines_of_decreases(text: Seq<char>) {
    lemma_line_length(text);
}

/// Whether a value can stand on one line: it holds no line feed.
pub open spec fn is_single_line(value: Seq<char>) -> bool {
    forall|i: int| 0 <= i < value.len() ==> #[trigger] value[i] != '\n'
}

/// A line ends within the text, at a line feed or at the end.
pub proof fn lemma_line_length(text: Seq<char>)
    ensures
        line_length(text) <= text.len(),
        line_length(text) < text.len() ==> text[line_length(text) as int] == '\n',
        forall|i: int| 0 <= i < line_length(text) ==> #[trigger] text[i] != '\n',
    decreases text.len(),
{
    if text.len() > 0 && text[0] != '\n' {
        let rest = text.skip(1);
        lemma_line_length(rest);
        assert forall|i: int| 0 <= i < line_length(text) implies #[trigger] text[i] != '\n' by {
            if i > 0 {
                assert(rest[i - 1] == text[i]);
            }
        }
    }
}

/// The first line feed of a text that starts with a value on one line
/// stands right behind the value.
proof fn lemma_line_length_of_value(value: Seq<char>, rest: Seq<char>)
    requires
        is_single_line(value),
    ensures
        line_length(value + seq!['\n'] + rest) == value.len(),
    decreases value.len(),
{
    let text = value + seq!['\n'] + rest;
    if value.len() == 0 {
        assert(text[0] == '\n');
    } else {
        assert(text[0] == value[0]);
        let shorter = value.skip(1);
        assert(text.skip(1) =~= shorter + seq!['\n'] + rest);
        assert forall|i: int| 0 <= i < shorter.len() implies #[trigger] shorter[i] != '\n' by {
            assert(shorter[i] == value[i + 1]);
        }
        lemma_line_length_of_value(shorter, rest);
    }
}

/// The text of a file is the text of its first lines, then that of the rest.
pub proof fn lemma_file_text_splits(first: Seq<Seq<char>>, second: Seq<Seq<char>>)
    ensures
        file_text(first + second) == file_text(first) + file_text(second),
    decreases second.len(),
{
    if second.len() == 0 {
        assert(first + second == first);
        assert(file_text(first) + file_text(second) =~= file_text(first));
    } else {
        lemma_file_text_splits(first, second.drop_last());
        assert((first + second).drop_last() == first + second.drop_last());
        assert((first + second).last() == second.last());
        assert(file_text(first + second) =~= file_text(first) + file_text(second));
    }
}

/// Reading the file gives back what was written: the lines of the text of a
/// file are the values it was made of, in their order, as long as each value
/// stands on one line.
pub proof fn lemma_lines_of_file_text(values: Seq<Seq<char>>)
    requires
        forall|i: int| 0 <= i < values.len() ==> is_single_line(#[trigger] values[i]),
    ensures
        lines_of(file_text(values)) == values,
    decreases values.len(),
{
    if values.len() > 0 {
        let head = values[0];
        let tail = values.skip(1);
        let text = file_text(values);
        assert(values == seq![head] + tail);
        lemma_file_text_splits(seq![head], tail);
        assert(seq![head].drop_last() == Seq::<Seq<char>>::empty());
        assert(seq![head].last() == head);
        assert(file_text(Seq::<Seq<char>>::empty()) == Seq::<char>::empty());
        assert(file_text(seq![head]) =~= head + seq!['\n']);
        assert(text == head + seq!['\n'] + file_text(tail));
        lemma_line_length_of_value(head, file_text(tail));
        assert(text.take(head.len() as int) =~= head);
        assert(text.skip(head.len() as int + 1) =~= file_text(tail));
        assert forall|i: int| 0 <= i < tail.len() implies is_single_line(#[trigger] tail[i]) by {
            assert(tail[i] == values[i + 1]);
        }
        lemma_lines_of_file_text(tail);
        if tail.len() == 0 {
            assert(file_text(tail) =~= Seq::<char>::empty());
            assert(lines_of(text.skip(head.len() as int + 1)) =~= Seq::<Seq<char>>::empty());
        }
        assert(lines_of(text) =~= seq![head] + tail);
    }
}

/// The numerals of a series of scaling factors.
pub open spec fn texts(scales: Seq<Scale>) -> Seq<Seq<char>> {
    Seq::new(scales.len(), |i: int| scales[i].text())
}

/// Lays out the factor file: the numeral of each factor on a line of its own,
/// in the order given.
///
/// Read line by line, the file gives the numerals back, and each of them
/// denotes the factor that it was written for.
pub fn factor_file(scales: &Vec<Scale>) -> (text: String)
    ensures
        text@ == file_text(texts(scales@)),
        lines_of(text@) == texts(scales@),
        forall|i: int|
            0 <= i < scales@.len() ==> denotes(lines_of(text@)[i], (#[trigger] scales@[i]).bits()),
{
    let mut text = String::new();
    let mut i: usize = 0;
    let ghost lines = texts(scales@);
    assert(lines.take(0) =~= Seq::<Seq<char>>::empty());
    while i < scales.len()
        invariant
            i <= scales.len(),
            lines == texts(scales@),
            text@ == file_text(lines.take(i as int)),
            forall|j: int| 0 <= j < i ==> denotes(#[trigger] lines[j], scales@[j].bits()),
        decreases scales.len() - i,
    {
        let value = scales[i].as_str();
        proof {
            reveal_strlit("\n");
            assert(lines.take(i + 1).drop_last() == lines.take(i as int));
            assert(lines.take(i + 1).last() == value@);
            assert("\n"@ =~= seq!['\n']);
        }
        text.append(value);
        text.append("\n");
        i += 1;
    }
    proof {
        assert(lines.take(scales.len() as int) =~= lines);
        assert forall|j: int| 0 <= j < lines.len() implies is_single_line(#[trigger] lines[j]) by {
            assert(denotes(lines[j], scales@[j].bits()));
            lemma_numeral_is_single_line(lines[j]);
        }
        lemma_lines_of_file_text(lines);
    }
    text
}

} // verus!
