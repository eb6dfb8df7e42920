//! The written forms of a frame and of a trace.

use vstd::prelude::*;
use vstd::arithmetic::div_mod::lemma_fundamental_div_mod_converse;
use crate::frame::{Cell, WireFrame};
use crate::geometry::{Path, index_of};
use crate::text::{append, decimal, digits};

verus! {

impl Cell {
    /// The character that stands for a position of the frame.
    pub open spec fn glyph(self) -> char {
        match self {
            Cell::Wall => '#',
            Cell::Passage => ' ',
        }
    }

    /// The text that stands for a position of the frame.
    pub fn as_str(&self) -> (s: &'static str)
        ensures
            s@ == seq![self.glyph()],
    {
        match self {
            Cell::Wall => {
                proof { reveal_strlit("#"); }
                assert("#"@ =~= seq!['#']);
                "#"
            },
            Cell::Passage => {
                proof { reveal_strlit(" "); }
                assert(" "@ =~= seq![' ']);
                " "
            },
        }
    }
}

/// The text of the positions `data` in rows `width` long: one character
/// for each position, and a line break behind every position that ends a
/// row.
pub open spec fn ascii_text(data: Seq<Cell>, width: int) -> Seq<char>
    decreases data.len(),
{
    if data.len() == 0 {
        Seq::empty()
    } else {
        let head = ascii_text(data.drop_last(), width).push(data.last().glyph());
        if (data.len() - 1) % width == width - 1 {
            head.push('\n')
        } else {
            head
        }
    }
}

/// The line of one event: its cell as `x,y`, a hyphen, and the letter of
/// its direction.
pub open spec fn event_line(e: Path) -> Seq<char> {
    digits(e.coordinate.x as nat) + seq![','] + digits(e.coordinate.y as nat) + seq!['-']
        + seq![e.direction.letter()] + seq!['\n']
}

/// The lines of the events of a trace, in their order.
pub open spec fn trace_text(t: Seq<Path>) -> Seq<char>
    decreases t.len(),
{
    if t.len() == 0 {
        Seq::empty()
    } else {
        trace_text(t.drop_last()) + event_line(t.last())
    }
}

/// The frame as text, row by row.
pub fn output_ascii(frame: &WireFrame) -> (output: String)
    requires
        frame.width > 0,
    ensures
        output@ == ascii_text(frame.data@, frame.width as int),
{
    let mut output = String::new();
    let mut i: usize = 0;
    while i < frame.data.len()
        invariant
            i <= frame.data@.len(),
            frame.width > 0,
            output@ == ascii_text(frame.data@.take(i as int), frame.width as int),
        decreases frame.data@.len() - i,
    {
        let ghost before = output@;
        append(&mut output, frame.data[i].as_str());
        assert(output@ =~= before.push(frame.data@[i as int].glyph()));
        if i % frame.width as usize == frame.width as usize - 1 {
            proof { reveal_strlit("\n"); }
            let ghost head = output@;
            append(&mut output, "\n");
            assert(output@ =~= head.push('\n'));
        }
        assert(frame.data@.take(i + 1).drop_last() =~= frame.data@.take(i as int));
        i += 1;
    }
    assert(frame.data@.take(i as int) =~= frame.data@);
    output
}

/// The trace as text, one line for each event.
pub fn output_path(paths: &Vec<Path>) -> (output: String)
    ensures
        output@ == trace_text(paths@),
{
    let mut output = String::new();
    let mut n: usize = 0;
    while n < paths.len()
        invariant
            n <= paths@.len(),
            output@ == trace_text(paths@.take(n as int)),
        decreases paths@.len() - n,
    {
        let path = paths[n];
        let ghost before = output@;
        proof {
            reveal_strlit(",");
            reveal_strlit("-");
            reveal_strlit("\n");
        }
        append(&mut output, decimal(path.coordinate.x).as_str());
        append(&mut output, ",");
        append(&mut output, decimal(path.coordinate.y).as_str());
        append(&mut output, "-");
        append(&mut output, path.direction.as_string());
        append(&mut output, "\n");
        assert(","@ =~= seq![',']);
        assert("-"@ =~= seq!['-']);
        assert("\n"@ =~= seq!['\n']);
        assert(output@ =~= before + event_line(path));
        assert(paths@.take(n + 1).drop_last() =~= paths@.take(n as int));
        n += 1;
    }
    assert(paths@.take(n as int) =~= paths@);
    output
}

/// Where the text holds the character of the position `j`: behind one
/// line break for every full row before it.
pub open spec fn text_place(j: int, width: int) -> int {
    j + j / width
}

/// Where the text of the positions stands: the position `j` is written
/// behind one line break for every full row before it, and the position
/// that ends a row has a line break behind it.
pub proof fn lemma_ascii_places(data: Seq<Cell>, width: int)
    requires
        width > 0,
    ensures
        ascii_text(data, width).len() == data.len() + (data.len() as int) / width,
        forall|j: int|
            0 <= j < data.len() ==> {
                let at = #[trigger] text_place(j, width);
                &&& 0 <= at < ascii_text(data, width).len()
                &&& ascii_text(data, width)[at] == data[j].glyph()
                &&& j % width == width - 1 ==> at + 1 < ascii_text(data, width).len()
                    && ascii_text(data, width)[at + 1] == '\n'
            },
    decreases data.len(),
{
    let n = data.len() as int;
    if n > 0 {
        let before = data.drop_last();
        let text0 = ascii_text(before, width);
        let text = ascii_text(data, width);
        lemma_ascii_places(before, width);
        let q = (n - 1) / width;
        let r = (n - 1) % width;
        assert(n - 1 == width * q + r && 0 <= r < width && 0 <= q) by (nonlinear_arith)
            requires
                width > 0,
                n - 1 >= 0,
                q == (n - 1) / width,
                r == (n - 1) % width,
        ;
        if r == width - 1 {
            assert(n == (q + 1) * width + 0) by (nonlinear_arith)
                requires
                    n - 1 == width * q + r,
                    r == width - 1,
            ;
            lemma_fundamental_div_mod_converse(n, width, q + 1, 0);
            assert(text == text0.push(data.last().glyph()).push('\n'));
        } else {
            assert(n == q * width + (r + 1)) by (nonlinear_arith)
                requires
                    n - 1 == width * q + r,
            ;
            lemma_fundamental_div_mod_converse(n, width, q, r + 1);
            assert(text == text0.push(data.last().glyph()));
        }
        assert(text0.len() == n - 1 + q);
        assert forall|j: int| 0 <= j < n implies {
            let at = #[trigger] text_place(j, width);
            &&& 0 <= at < text.len()
            &&& text[at] == data[j].glyph()
            &&& j % width == width - 1 ==> at + 1 < text.len() && text[at + 1] == '\n'
        } by {
            let at = text_place(j, width);
            if j < n - 1 {
                assert(before[j] == data[j]);
                assert(0 <= at < text0.len());
                assert(text[at] == text0[at]);
                if j % width == width - 1 {
                    assert(text[at + 1] == text0[at + 1]);
                }
            } else {
                assert(at == text0.len());
            }
        }
    } else {
        assert(0int / width == 0) by (nonlinear_arith)
            requires
                width > 0,
        ;
    }
}

/// The text of a frame of `height` full rows is `height` lines: every line
/// holds the characters of the positions of its row, `width` of them, none
/// of them a line break, and ends in a line break.
pub proof fn lemma_ascii_rows(data: Seq<Cell>, width: int, height: int)
    requires
        width > 0,
        height >= 0,
        data.len() == width * height,
    ensures
        ascii_text(data, width).len() == (width + 1) * height,
        forall|x: int, y: int|
            0 <= x < width && 0 <= y < height ==> ascii_text(data, width)[index_of(
                (x, y),
                width + 1,
            )] == data[#[trigger] index_of((x, y), width)].glyph(),
        forall|y: int|
            0 <= y < height ==> ascii_text(data, width)[#[trigger] index_of((width, y), width + 1)]
                == '\n',
        forall|i: int| 0 <= i < data.len() ==> (#[trigger] data[i]).glyph() != '\n',
{
    lemma_ascii_places(data, width);
    let text = ascii_text(data, width);
    assert(width * height == height * width + 0 && (width + 1) * height == width * height + height)
        by (nonlinear_arith);
    lemma_fundamental_div_mod_converse(width * height, width, height, 0);
    assert forall|x: int, y: int| 0 <= x < width && 0 <= y < height implies text[index_of(
        (x, y),
        width + 1,
    )] == data[#[trigger] index_of((x, y), width)].glyph() && (x == width - 1 ==> text[index_of(
        (width, y),
        width + 1,
    )] == '\n') by {
        let j = index_of((x, y), width);
        assert(0 <= y * width && y * width + width <= width * height && y * (width + 1) == y
            * width + y) by (nonlinear_arith)
            requires
                0 <= y < height,
                width > 0,
        ;
        lemma_fundamental_div_mod_converse(j, width, y, x);
        assert(text_place(j, width) == index_of((x, y), width + 1));
        assert(0 <= j < data.len());
    }
    assert forall|y: int| 0 <= y < height implies text[#[trigger] index_of((width, y), width + 1)]
        == '\n' by {
        let j = index_of((width - 1, y), width);
        assert(text[index_of((width - 1, y), width + 1)] == data[j].glyph());
        assert(index_of((width, y), width + 1) == index_of((width - 1, y), width + 1) + 1);
    }
}

} // verus!
