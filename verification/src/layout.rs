//! Several boards side by side, wrapped to the width of the terminal.

use crate::board::{boards, Board, Fields};
use crate::render::{rendered, texts};
use vstd::prelude::*;
use vstd::string::StringExecFns;

verus! {

/// The width assumed when the terminal does not tell its own: so narrow that
/// every board gets a group to itself.
pub const FALLBACK_WIDTH: u16 = 1;

/// The blank between two boards of a group.
pub open spec fn gutter() -> Seq<char> {
    seq![' ', ' ']
}

/// A run of spaces.
pub open spec fn blanks(count: nat) -> Seq<char> {
    Seq::new(count, |i: int| ' ')
}

/// Where the group ends that already holds the boards before `end` and takes
/// up `used` columns: the next board joins while its width and the gutter
/// keep the group strictly below the terminal width.
pub open spec fn extend_group(states: Seq<Board>, end: int, used: nat, width: nat) -> int
    decreases states.len() - end,
{
    if 0 <= end < states.len() && used + 2 + states[end].size < width {
        extend_group(states, end + 1, used + 2 + states[end].size, width)
    } else {
        end
    }
}

/// Where the group that starts at `start` ends. It always holds the board at
/// `start`, however wide.
pub open spec fn group_end(states: Seq<Board>, start: int, width: nat) -> int {
    extend_group(states, start + 1, states[start].size, width)
}

/// The height of the group: the size of the largest of the boards from
/// `start` up to `end`.
pub open spec fn tallest(states: Seq<Board>, start: int, end: int) -> nat
    decreases end - start,
{
    if end <= start {
        0
    } else {
        let rest = tallest(states, start, end - 1);
        if states[end - 1].size > rest {
            states[end - 1].size
        } else {
            rest
        }
    }
}

/// What a board contributes to a line of its group: its row of that number,
/// or blanks of its width once its rows have run out.
pub open spec fn cell(b: Board, line: int) -> Seq<char> {
    if line < rendered(b).len() {
        rendered(b)[line]
    } else {
        blanks(b.size)
    }
}

/// One line of the group from `start` up to `end`, as far as the boards
/// before `upto`: their cells from left to right, a gutter behind each but
/// the last of the group.
pub open spec fn group_line(states: Seq<Board>, start: int, end: int, line: int, upto: int) -> Seq<
    char,
>
    decreases upto - start,
{
    if upto <= start {
        Seq::empty()
    } else {
        group_line(states, start, end, line, upto - 1) + cell(states[upto - 1], line) + (if upto
            < end {
            gutter()
        } else {
            Seq::empty()
        })
    }
}

/// The lines of one group, top to bottom.
pub open spec fn group_lines(states: Seq<Board>, start: int, end: int) -> Seq<Seq<char>> {
    Seq::new(tallest(states, start, end), |line: int| group_line(states, start, end, line, end))
}

/// The lines for the boards from `start` on: group after group, an empty
/// line between two groups.
pub open spec fn layout_from(states: Seq<Board>, start: int, width: nat) -> Seq<Seq<char>>
    decreases states.len() - start,
{
    if start < 0 || start >= states.len() {
        Seq::empty()
    } else {
        let end = group_end(states, start, width);
        if start < end < states.len() {
            group_lines(states, start, end) + seq![Seq::<char>::empty()] + layout_from(
                states,
                end,
                width,
            )
        } else {
            group_lines(states, start, end)
        }
    }
}

/// The lines that show all the boards on a terminal of the given width.
pub open spec fn layout(states: Seq<Board>, width: nat) -> Seq<Seq<char>> {
    layout_from(states, 0, width)
}

/// A group never runs past the last board, and never ends before `end`.
pub proof fn lemma_extend_group_bounds(states: Seq<Board>, end: int, used: nat, width: nat)
    requires
        0 <= end <= states.len(),
    ensures
        end <= extend_group(states, end, used, width) <= states.len(),
    decreases states.len() - end,
{
    if end < states.len() && used + 2 + states[end].size < width {
        lemma_extend_group_bounds(states, end + 1, used + 2 + states[end].size, width);
    }
}

/// Every group holds at least its first board and ends within the list, so
/// the layout moves on with every group.
pub proof fn lemma_group_bounds(states: Seq<Board>, start: int, width: nat)
    requires
        0 <= start < states.len(),
    ensures
        start < group_end(states, start, width) <= states.len(),
{
    lemma_extend_group_bounds(states, start + 1, states[start].size, width);
}

/// On a terminal of at most two columns, the fallback width among them,
/// every board stands in a group of its own.
pub proof fn lemma_narrow_terminal_parts_all(states: Seq<Board>, start: int, width: nat)
    requires
        0 <= start < states.len(),
        width <= 2,
    ensures
        group_end(states, start, width) == start + 1,
{
}

/// The columns that the boards from `start` up to `end` take side by side,
/// gutters included.
pub open spec fn span(states: Seq<Board>, start: int, end: int) -> nat
    decreases end - start,
{
    if end <= start {
        0
    } else if end == start + 1 {
        states[start].size
    } else {
        span(states, start, end - 1) + 2 + states[end - 1].size
    }
}

/// Every line of a group is as wide as the group: a board whose rows have
/// run out is padded to its own width.
pub proof fn lemma_group_line_width(states: Seq<Board>, start: int, end: int, line: int, upto: int)
    requires
        0 <= start <= upto <= end <= states.len(),
        0 <= line,
    ensures
        group_line(states, start, end, line, upto).len() == span(states, start, upto) + (if start
            < upto < end {
            2nat
        } else {
            0nat
        }),
    decreases upto - start,
{
    if upto > start {
        lemma_group_line_width(states, start, end, line, upto - 1);
        assert(cell(states[upto - 1], line).len() == states[upto - 1].size);
    }
}

/// A group that took a board after its first stays strictly narrower than
/// the terminal.
pub proof fn lemma_group_fits(states: Seq<Board>, start: int, width: nat)
    requires
        0 <= start < states.len(),
        group_end(states, start, width) > start + 1,
    ensures
        span(states, start, group_end(states, start, width)) < width,
{
    lemma_extended_group_fits(states, start, start + 1, states[start].size, width);
}

/// The same while the group grows: `used` is what the boards before `end`
/// take, and below the width once a second board has joined.
pub proof fn lemma_extended_group_fits(
    states: Seq<Board>,
    start: int,
    end: int,
    used: nat,
    width: nat,
)
    requires
        0 <= start < end <= states.len(),
        used == span(states, start, end),
        end > start + 1 ==> used < width,
        extend_group(states, end, used, width) > start + 1,
    ensures
        span(states, start, extend_group(states, end, used, width)) < width,
    decreases states.len() - end,
{
    if end < states.len() && used + 2 + states[end].size < width {
        lemma_extended_group_fits(states, start, end + 1, used + 2 + states[end].size, width);
    }
}

/// Taken on trust, not proved: `termsize::get` asks the operating system
/// for the size of the terminal behind standard output. This hands on the
/// number of columns, or nothing where there is no terminal or it does not
/// answer. Nothing is claimed of the number.
#[verifier::external_body]
fn terminal_columns() -> (columns: Option<u16>) {
    match termsize::get() {
        Some(size) => Some(size.cols),
        None => None,
    }
}

/// The width to lay out for, given what the terminal said.
pub fn width_or_fallback(columns: Option<u16>) -> (width: u16)
    ensures
        width == match columns {
            Some(cols) => cols,
            None => FALLBACK_WIDTH,
        },
{
    match columns {
        Some(cols) => cols,
        None => FALLBACK_WIDTH,
    }
}

/// Appends `count` blanks.
fn push_blanks(text: &mut String, count: u8)
    ensures
        final(text)@ == old(text)@ + blanks(count as nat),
{
    let mut i: u8 = 0;
    proof {
        assert(text@ =~= old(text)@ + blanks(0));
    }
    while i < count
        invariant
            i <= count,
            text@ == old(text)@ + blanks(i as nat),
        decreases count - i,
    {
        text.push(' ');
        proof {
            assert(blanks(i as nat).push(' ') =~= blanks((i + 1) as nat));
            assert((old(text)@ + blanks(i as nat)).push(' ') =~= old(text)@ + blanks(
                (i + 1) as nat,
            ));
        }
        i += 1;
    }
}

/// The end of the group that starts at `start`.
fn find_group_end(fields: &Vec<Fields>, start: usize, width: u16) -> (end: usize)
    requires
        start < fields.len(),
    ensures
        start < end <= fields.len(),
        end == group_end(boards(fields@), start as int, width as nat),
{
    let ghost states = boards(fields@);
    let mut end: usize = start + 1;
    let mut used: u32 = fields[start].size as u32;
    while end < fields.len() && used + 2 + (fields[end].size as u32) < width as u32
        invariant
            start < end <= fields.len(),
            states == boards(fields@),
            used <= u16::MAX,
            extend_group(states, end as int, used as nat, width as nat) == group_end(
                states,
                start as int,
                width as nat,
            ),
        decreases fields.len() - end,
    {
        used = used + 2 + (fields[end].size as u32);
        end += 1;
    }
    end
}

/// The height of the group from `start` up to `end`.
fn group_height(fields: &Vec<Fields>, start: usize, end: usize) -> (height: u8)
    requires
        start <= end <= fields.len(),
    ensures
        height == tallest(boards(fields@), start as int, end as int),
{
    let mut height: u8 = 0;
    let mut k: usize = start;
    while k < end
        invariant
            start <= k <= end <= fields.len(),
            height == tallest(boards(fields@), start as int, k as int),
        decreases end - k,
    {
        if fields[k].size > height {
            height = fields[k].size;
        }
        k += 1;
    }
    height
}

/// The rows of each board of the group.
fn group_rows(fields: &Vec<Fields>, start: usize, end: usize) -> (rows: Vec<Vec<String>>)
    requires
        start <= end <= fields.len(),
    ensures
        rows@.len() == end - start,
        forall|j: int|
            0 <= j < end - start ==> texts((#[trigger] rows@[j])@) == rendered(fields@[start + j]@),
{
    let mut rows: Vec<Vec<String>> = Vec::new();
    let mut k: usize = start;
    while k < end
        invariant
            start <= k <= end <= fields.len(),
            rows@.len() == k - start,
            forall|j: int|
                0 <= j < k - start ==> texts((#[trigger] rows@[j])@) == rendered(
                    fields@[start + j]@,
                ),
        decreases end - k,
    {
        rows.push(fields[k].get_rows());
        k += 1;
    }
    rows
}

/// One line of the group.
fn compose_line(
    fields: &Vec<Fields>,
    rows: &Vec<Vec<String>>,
    start: usize,
    end: usize,
    line: u8,
) -> (text: String)
    requires
        start <= end <= fields.len(),
        rows@.len() == end - start,
        forall|j: int|
            0 <= j < end - start ==> texts((#[trigger] rows@[j])@) == rendered(fields@[start + j]@),
    ensures
        text@ == group_line(boards(fields@), start as int, end as int, line as int, end as int),
{
    let ghost states = boards(fields@);
    let mut text = String::new();
    let mut k: usize = start;
    while k < end
        invariant
            start <= k <= end <= fields.len(),
            states == boards(fields@),
            rows@.len() == end - start,
            forall|j: int|
                0 <= j < end - start ==> texts((#[trigger] rows@[j])@) == rendered(
                    fields@[start + j]@,
                ),
            text@ == group_line(states, start as int, end as int, line as int, k as int),
        decreases end - k,
    {
        let ghost before = text@;
        let own = &rows[k - start];
        proof {
            assert(texts(rows@[k - start]@) == rendered(fields@[start + (k - start)]@));
            assert(states[k as int] == fields@[k as int]@);
        }
        if (line as usize) < own.len() {
            text.append(own[line as usize].as_str());
            proof {
                assert(texts(own@)[line as int] == own@[line as int]@);
            }
        } else {
            push_blanks(&mut text, fields[k].size);
        }
        assert(text@ == before + cell(states[k as int], line as int));
        if k + 1 < end {
            text.push(' ');
            text.push(' ');
            proof {
                assert(text@ =~= before + cell(states[k as int], line as int) + gutter());
            }
        } else {
            proof {
                assert(text@ =~= before + cell(states[k as int], line as int) + Seq::<
                    char,
                >::empty());
            }
        }
        k += 1;
    }
    text
}

/// The lines that show the states side by side on a terminal `width`
/// columns wide. A group takes a further board while the group, a gutter of
/// two blanks and the board stay strictly below `width`; an empty line parts
/// two groups.
pub fn layout_fields(fields: &Vec<Fields>, width: u16) -> (lines: Vec<String>)
    ensures
        texts(lines@) == layout(boards(fields@), width as nat),
{
    let ghost states = boards(fields@);
    let mut lines: Vec<String> = Vec::new();
    let mut index: usize = 0;
    proof {
        assert(texts(lines@) + layout_from(states, 0, width as nat) =~= layout(
            states,
            width as nat,
        ));
    }
    while index < fields.len()
        invariant
            index <= fields.len(),
            states == boards(fields@),
            texts(lines@) + layout_from(states, index as int, width as nat) == layout(
                states,
                width as nat,
            ),
        decreases fields.len() - index,
    {
        let start = index;
        let ghost done = texts(lines@);
        let end = find_group_end(fields, start, width);
        let rows = group_rows(fields, start, end);
        let height = group_height(fields, start, end);
        let mut line: u8 = 0;
        while line < height
            invariant
                line <= height,
                start < end <= fields.len(),
                states == boards(fields@),
                height == tallest(states, start as int, end as int),
                rows@.len() == end - start,
                forall|j: int|
                    0 <= j < end - start ==> texts((#[trigger] rows@[j])@) == rendered(
                        fields@[start + j]@,
                    ),
                texts(lines@) == done + group_lines(states, start as int, end as int).take(
                    line as int,
                ),
            decreases height - line,
        {
            let ghost before = texts(lines@);
            let text = compose_line(fields, &rows, start, end, line);
            lines.push(text);
            proof {
                let group = group_lines(states, start as int, end as int);
                assert(group.take(line as int + 1) =~= group.take(line as int).push(
                    group[line as int],
                ));
                assert(texts(lines@) =~= before.push(text@));
                assert(texts(lines@) =~= done + group.take(line as int + 1));
            }
            line += 1;
        }
        proof {
            let group = group_lines(states, start as int, end as int);
            assert(group.take(height as int) =~= group);
        }
        if end < fields.len() {
            let ghost before = texts(lines@);
            lines.push(String::new());
            proof {
                let group = group_lines(states, start as int, end as int);
                let rest = layout_from(states, end as int, width as nat);
                assert(texts(lines@) =~= before.push(Seq::<char>::empty()));
                assert(texts(lines@) + rest =~= done + (group + seq![Seq::<char>::empty()] + rest));
            }
        } else {
            proof {
                assert(layout_from(states, end as int, width as nat) =~= Seq::<Seq<char>>::empty());
                let group = group_lines(states, start as int, end as int);
                assert(texts(lines@) + Seq::<Seq<char>>::empty() =~= done + group);
            }
        }
        index = end;
    }
    proof {
        assert(layout_from(states, fields.len() as int, width as nat) =~= Seq::<Seq<char>>::empty());
        assert(texts(lines@) + Seq::<Seq<char>>::empty() =~= texts(lines@));
    }
    lines
}

/// The lines that show the states on the terminal at hand: laid out for the
/// width that the terminal reports, or for the fallback width where it
/// reports none.
pub fn render_many(fields: &Vec<Fields>) -> (lines: Vec<String>)
    ensures
        exists|width: u16| texts(lines@) == layout(boards(fields@), width as nat),
{
    let width = width_or_fallback(terminal_columns());
    layout_fields(fields, width)
}

} // verus!
