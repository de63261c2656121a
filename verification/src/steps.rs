//! The course's step tooling: the exercise blocks of the sources, and the texts the
//! tooling turns them into.
//!
//! In the reference sources, each exercise is a block between `// SOLUTION-BEGIN` and
//! `// SOLUTION-END`, its step announced by a `TODO-STEP:<n>` comment shortly above. In
//! a working copy, the block sits between `// >>> ÉTAPE <n>` and `// <<< ÉTAPE <n>`
//! markers, and holds a placeholder call until it is filled. Reading, writing and
//! walking the files is left to the program; this module says what the texts become.

use vstd::prelude::*;

use crate::error::decimal;
use crate::mask::{lines_of, lines_view, split_lines};
use crate::text::{
    chars_of, digit_run, digit_run_len, find, find_at, find_from, lemma_find_from, first_word, first_word_of, leading_space,
    leading_space_len, matches_at, occurs_at, parse_number, lemma_find_after, lemma_digit_run_of, all_digits, is_digit, digits_value, parse_unsigned, push_all, push_str, same_chars,
    slice_of, split_all, split_once, starts_with, strip_cr, text_lines, trim_start,
};

verus! {

/// Opening marker in the reference sources.
pub const SOLUTION_BEGIN: &'static str = "// SOLUTION-BEGIN";

/// Closing marker in the reference sources.
pub const SOLUTION_END: &'static str = "// SOLUTION-END";

/// Prefix of the opening marker in a working copy.
pub const REGION_BEGIN: &'static str = "// >>> ÉTAPE ";

/// Prefix of the closing marker in a working copy.
pub const REGION_END: &'static str = "// <<< ÉTAPE ";

/// Where the reference blocks are kept, in a working copy.
pub const REFERENCE: &'static str = "xtask/reference.txt";

/// Last step covered by the current code.
pub const LAST_STEP: u8 = 11;

/// Name of the generated working copy, at the root of the repository.
pub const WORKDIR: &'static str = "travail";

/// Announces the step of a block in the reference sources.
pub const STEP_TAG: &'static str = "TODO-STEP:";

/// An exercise block found in a source file.
#[derive(Debug)]
pub struct Block {
    /// Step of the block (0 when none is found).
    pub step: u8,
    /// Indentation of the opening marker.
    pub indent: Vec<char>,
    /// Lines of the body, markers excluded.
    pub body: Vec<Vec<char>>,
    /// Rank of the block in its file.
    pub ordinal: usize,
    /// Line of the opening marker.
    pub start: usize,
    /// Line of the closing marker.
    pub end: usize,
}

/// Mathematical model of a block.
pub struct BlockModel {
    /// Step of the block.
    pub step: u8,
    /// Indentation of the opening marker.
    pub indent: Seq<char>,
    /// Lines of the body.
    pub body: Seq<Seq<char>>,
    /// Rank of the block in its file.
    pub ordinal: nat,
    /// Line of the opening marker.
    pub start: nat,
    /// Line of the closing marker.
    pub end: nat,
}

impl View for Block {
    type V = BlockModel;

    open spec fn view(&self) -> BlockModel {
        BlockModel {
            step: self.step,
            indent: self.indent@,
            body: lines_view(self.body@),
            ordinal: self.ordinal as nat,
            start: self.start as nat,
            end: self.end as nat,
        }
    }
}

/// The models of a list of blocks.
pub open spec fn blocks_view(blocks: Seq<Block>) -> Seq<BlockModel> {
    blocks.map_values(|b: Block| b@)
}

/// What `str::parse::<u8>` gives.
pub open spec fn parse_u8(s: Seq<char>) -> Option<u8> {
    match parse_unsigned(s, 255) {
        Some(v) => Some(v as u8),
        None => None,
    }
}

/// Step written on a working-copy marker: the first word after the marker's prefix.
pub open spec fn marker_step(line: Seq<char>) -> Option<u8> {
    let t = trim_start(line);
    if starts_with(t, REGION_BEGIN@) {
        match first_word(t.skip(REGION_BEGIN@.len() as int)) {
            Some(w) => parse_u8(w),
            None => None,
        }
    } else {
        None
    }
}

/// Step announced on a line of the reference sources: the digits right after the tag.
pub open spec fn tagged_step(line: Seq<char>) -> Option<u8> {
    match split_once(line, STEP_TAG@) {
        Some((_, rest)) => parse_u8(rest.take(digit_run(rest) as int)),
        None => None,
    }
}

/// The nearest tagged step on the lines `floor .. k`, searching upwards from `k - 1`.
pub open spec fn tagged_step_above(lines: Seq<Seq<char>>, k: int, floor: int) -> Option<u8>
    decreases k - floor,
{
    if k <= floor {
        None
    } else {
        match tagged_step(lines[k - 1]) {
            Some(n) => Some(n),
            None => tagged_step_above(lines, k - 1, floor),
        }
    }
}

/// Step of the block opening at line `start`: on the marker itself in a working copy,
/// on the nearest tag of the eight lines above in the reference sources.
pub open spec fn block_step(lines: Seq<Seq<char>>, start: int, working: bool) -> Option<u8> {
    if working {
        marker_step(lines[start])
    } else {
        tagged_step_above(lines, start, if start >= 8 { start - 8 } else { 0 })
    }
}

/// Does `line` start, after its indentation, with `marker`?
pub open spec fn is_marker(line: Seq<char>, marker: Seq<char>) -> bool {
    starts_with(trim_start(line), marker)
}

/// First line, from `k` on, that is a `marker` line.
pub open spec fn first_marker(lines: Seq<Seq<char>>, k: nat, marker: Seq<char>) -> Option<nat>
    decreases lines.len() - k,
{
    if k >= lines.len() {
        None
    } else if is_marker(lines[k as int], marker) {
        Some(k)
    } else {
        first_marker(lines, k + 1, marker)
    }
}

/// The blocks between `begin` and `end` markers, from line `i` on, ranked from `ordinal`.
/// An opening marker without a closing one ends the search.
pub open spec fn blocks_from(lines: Seq<Seq<char>>, i: nat, ordinal: nat, begin: Seq<char>, end: Seq<char>) -> Seq<
    BlockModel,
>
    decreases lines.len() - i,
{
    if i >= lines.len() {
        Seq::empty()
    } else if !is_marker(lines[i as int], begin) {
        blocks_from(lines, i + 1, ordinal, begin, end)
    } else {
        match first_marker(lines, i + 1, end) {
            Some(stop) => if i < stop < lines.len() {
                seq![
                    BlockModel {
                        step: match block_step(lines, i as int, begin == REGION_BEGIN@) {
                            Some(n) => n,
                            None => 0,
                        },
                        indent: lines[i as int].take(leading_space(lines[i as int]) as int),
                        body: lines.subrange(i + 1 as int, stop as int),
                        ordinal,
                        start: i,
                        end: stop,
                    },
                ] + blocks_from(lines, stop + 1, ordinal + 1, begin, end)
            } else {
                Seq::empty()
            },
            None => Seq::empty(),
        }
    }
}

/// The blocks of a text.
pub open spec fn blocks_in(text: Seq<char>, begin: Seq<char>, end: Seq<char>) -> Seq<BlockModel> {
    blocks_from(text_lines(text), 0, 0, begin, end)
}

/// The lines of a text, as `str::lines` gives them.
pub fn text_lines_of(text: &[char]) -> (r: Vec<Vec<char>>)
    ensures
        lines_view(r@) == text_lines(text@),
{
    let all = slice_of(text, 0, text.len());
    assert(all@ =~= text@);
    let pieces = lines_of(&all);
    let n = pieces.len();
    let ghost p = split_lines(text@);
    proof {
        lemma_split_lines_nonempty(text@);
    }
    assert(n >= 1);
    let mut out: Vec<Vec<char>> = Vec::new();
    let mut k: usize = 0;
    while k + 1 < n
        invariant
            n == pieces@.len(),
            n >= 1,
            lines_view(pieces@) == p,
            k + 1 <= n,
            lines_view(out@) == p.drop_last().take(k as int).map_values(|l: Seq<char>| strip_cr(l)),
        decreases n - k,
    {
        let line = &pieces[k];
        let len = line.len();
        let keep = if len > 0 && line[len - 1] == '\r' {
            len - 1
        } else {
            len
        };
        let piece = slice_of(line, 0, keep);
        assert(p[k as int] == line@);
        assert(piece@ =~= strip_cr(line@));
        let ghost before = lines_view(out@);
        out.push(piece);
        proof {
            assert(lines_view(out@) =~= before.push(piece@));
            assert(p.drop_last()[k as int] == p[k as int]);
        }
        k = k + 1;
        assert(lines_view(out@) =~= p.drop_last().take(k as int).map_values(|l: Seq<char>| strip_cr(l)));
    }
    assert(p.drop_last().take(k as int) =~= p.drop_last());
    let last = &pieces[n - 1];
    assert(p.last() == last@);
    if last.len() > 0 {
        let piece = slice_of(last, 0, last.len());
        assert(piece@ =~= last@);
        out.push(piece);
        assert(lines_view(out@) =~= text_lines(text@));
    } else {
        assert(lines_view(out@) =~= text_lines(text@));
    }
    out
}

/// There is always at least one piece between newlines.
proof fn lemma_split_lines_nonempty(s: Seq<char>)
    ensures
        split_lines(s).len() >= 1,
    decreases s.len(),
{
    if s.len() > 0 {
        lemma_split_lines_nonempty(s.drop_last());
    }
}

/// Does `line` start, after its indentation, with `marker`?
fn marker_line(line: &[char], marker: &[char]) -> (r: bool)
    ensures
        r == is_marker(line@, marker@),
{
    let lead = leading_space_len(line);
    matches_at(line, lead, marker)
}

/// What `str::parse::<u8>` gives.
fn parse_step_number(s: &[char]) -> (r: Option<u8>)
    ensures
        r == parse_u8(s@),
{
    match parse_number(s, 255) {
        Some(v) => Some(v as u8),
        None => None,
    }
}

/// Step announced on a line of the reference sources.
fn tag_on(line: &[char]) -> (r: Option<u8>)
    ensures
        r == tagged_step(line@),
{
    let tag = chars_of(STEP_TAG);
    let len = line.len();
    proof {
        lemma_find_from(line@, tag@, 0);
    }
    match find_at(line, &tag, 0) {
        Some(at) => {
            let from = at + tag.len();
            let n = digit_run_len(line, from);
            assert(from + n <= len);
            let digits = slice_of(line, from, from + n);
            proof {
                assert(line@.skip(from as int).take(n as int) =~= digits@);
            }
            parse_step_number(&digits)
        },
        None => None,
    }
}

/// Number of the step of the block opening at line `start`.
///
/// In a working copy (`begin` is the working-copy marker) the number is on the marker
/// itself; in the reference sources it is on the nearest step tag of the eight lines
/// above.
pub fn step_of(lines: &[Vec<char>], start: usize, begin: &[char]) -> (r: Option<u8>)
    requires
        start < lines@.len(),
    ensures
        r == block_step(lines_view(lines@), start as int, begin@ == REGION_BEGIN@),
{
    let region = chars_of(REGION_BEGIN);
    let ghost all = lines_view(lines@);
    assert(all[start as int] == lines@[start as int]@);
    if same_chars(begin, &region) {
        let line = &lines[start];
        let len = line.len();
        let lead = leading_space_len(line);
        if !matches_at(line, lead, &region) {
            return None;
        }
        let from = lead + region.len();
        proof {
            assert(trim_start(line@).skip(region@.len() as int) =~= line@.skip(from as int));
        }
        let rest = slice_of(line, from, len);
        assert(rest@ =~= line@.skip(from as int));
        return match first_word_of(&rest) {
            Some(w) => parse_step_number(&w),
            None => None,
        };
    }
    let floor: usize = if start >= 8 {
        start - 8
    } else {
        0
    };
    let mut k = start;
    while k > floor
        invariant
            floor <= k <= start,
            floor == (if start >= 8 { start - 8 } else { 0 }),
            begin@ != REGION_BEGIN@,
            start < lines@.len(),
            all == lines_view(lines@),
            tagged_step_above(all, start as int, floor as int) == tagged_step_above(all, k as int, floor as int),
        decreases k - floor,
    {
        assert(all[k - 1] == lines@[k - 1]@);
        match tag_on(&lines[k - 1]) {
            Some(n) => {
                return Some(n);
            },
            None => {},
        }
        k = k - 1;
    }
    None
}

/// First `marker` line, from `k` on.
fn first_marker_from(lines: &[Vec<char>], k: usize, marker: &[char]) -> (r: Option<usize>)
    requires
        k <= lines@.len(),
    ensures
        r is None <==> first_marker(lines_view(lines@), k as nat, marker@) is None,
        r matches Some(s) ==> first_marker(lines_view(lines@), k as nat, marker@) == Some(s as nat) && k <= s
            < lines@.len(),
{
    let ghost all = lines_view(lines@);
    let mut j = k;
    while j < lines.len()
        invariant
            k <= j <= lines@.len(),
            all == lines_view(lines@),
            first_marker(all, k as nat, marker@) == first_marker(all, j as nat, marker@),
        decreases lines@.len() - j,
    {
        assert(all[j as int] == lines@[j as int]@);
        if marker_line(&lines[j], marker) {
            return Some(j);
        }
        j = j + 1;
    }
    None
}

/// A copy of some lines.
fn copy_lines(lines: &[Vec<char>], from: usize, to: usize) -> (r: Vec<Vec<char>>)
    requires
        from <= to <= lines@.len(),
    ensures
        lines_view(r@) == lines_view(lines@).subrange(from as int, to as int),
{
    let mut out: Vec<Vec<char>> = Vec::new();
    let mut i = from;
    while i < to
        invariant
            from <= i <= to <= lines@.len(),
            lines_view(out@) == lines_view(lines@).subrange(from as int, i as int),
        decreases to - i,
    {
        let line = &lines[i];
        let piece = slice_of(line, 0, line.len());
        assert(piece@ =~= line@);
        let ghost before = lines_view(out@);
        out.push(piece);
        proof {
            assert(lines_view(out@) =~= before.push(piece@));
            assert(lines_view(lines@)[i as int] == line@);
        }
        i = i + 1;
        assert(lines_view(out@) =~= lines_view(lines@).subrange(from as int, i as int));
    }
    out
}

/// The blocks between `begin` and `end` markers of a source text, in order.
///
/// An opening marker is a line that starts, after its indentation, with `begin`; its
/// block closes at the next line that starts so with `end`. The step comes from
/// [`step_of`], 0 when there is none.
pub fn find_blocks(text: &str, begin: &str, end: &str) -> (r: Vec<Block>)
    ensures
        blocks_view(r@) == blocks_in(text@, begin@, end@),
{
    let chars = chars_of(text);
    let lines = text_lines_of(&chars);
    let b = chars_of(begin);
    let e = chars_of(end);
    let ghost all = lines_view(lines@);
    let mut blocks: Vec<Block> = Vec::new();
    let mut ordinal: usize = 0;
    let mut i: usize = 0;
    while i < lines.len()
        invariant
            all == lines_view(lines@),
            all == text_lines(text@),
            b@ == begin@,
            e@ == end@,
            i <= lines@.len(),
            ordinal <= i,
            blocks_view(blocks@) + blocks_from(all, i as nat, ordinal as nat, b@, e@) == blocks_from(all, 0, 0, b@, e@),
        decreases lines@.len() - i,
    {
        assert(all[i as int] == lines@[i as int]@);
        if !marker_line(&lines[i], &b) {
            i = i + 1;
            continue;
        }
        let start = i;
        let lead = leading_space_len(&lines[i]);
        let indent = slice_of(&lines[i], 0, lead);
        let step = match step_of(&lines, start, &b) {
            Some(n) => n,
            None => 0,
        };
        let stop = match first_marker_from(&lines, start + 1, &e) {
            Some(s) => s,
            None => {
                proof {
                    assert(blocks_from(all, i as nat, ordinal as nat, b@, e@) =~= Seq::<BlockModel>::empty());
                    assert(blocks_view(blocks@) + Seq::<BlockModel>::empty() =~= blocks_view(blocks@));
                }
                return blocks;
            },
        };
        let body = copy_lines(&lines, start + 1, stop);
        let block = Block { step, indent, body, ordinal, start, end: stop };
        let ghost before = blocks_view(blocks@);
        let ghost model = block@;
        proof {
            assert(indent@ =~= all[start as int].take(leading_space(all[start as int]) as int));
            let expected = BlockModel {
                step: match block_step(all, i as int, b@ == REGION_BEGIN@) {
                    Some(n) => n,
                    None => 0,
                },
                indent: all[i as int].take(leading_space(all[i as int]) as int),
                body: all.subrange(i + 1 as int, stop as int),
                ordinal: ordinal as nat,
                start: i as nat,
                end: stop as nat,
            };
            assert(model == expected);
            assert(is_marker(all[i as int], b@));
            assert(first_marker(all, (i + 1) as nat, e@) == Some(stop as nat));
            assert(i < stop < all.len());
            assert(blocks_from(all, i as nat, ordinal as nat, b@, e@) == seq![expected] + blocks_from(
                all,
                (stop + 1) as nat,
                (ordinal + 1) as nat,
                b@,
                e@,
            ));
        }
        blocks.push(block);
        proof {
            assert(blocks_view(blocks@) =~= before.push(model));
            assert(before.push(model) + blocks_from(all, (stop + 1) as nat, (ordinal + 1) as nat, b@, e@) =~= before + (
            seq![model] + blocks_from(all, (stop + 1) as nat, (ordinal + 1) as nat, b@, e@)));
        }
        ordinal = ordinal + 1;
        i = stop + 1;
    }
    blocks
}

/// The placeholder call a working copy holds in place of an unfinished block.
pub open spec fn placeholder_call() -> Seq<char> {
    "todo!("@
}

/// The placeholder line for a block of step `step`.
pub open spec fn todo_text(indent: Seq<char>, step: u8) -> Seq<char> {
    indent + "todo!(\"étape "@ + decimal(step as nat) + " — voir le commentaire ci-dessus\")"@
}

/// Appends the decimal writing of `n`.
fn push_number(out: &mut Vec<char>, n: usize)
    ensures
        final(out)@ == old(out)@ + decimal(n as nat),
{
    let mut s = String::new();
    crate::error::push_decimal(&mut s, n);
    let chars = chars_of(s.as_str());
    push_all(out, &chars);
}

/// The placeholder line that stands for the work to do.
pub fn todo_line(indent: &[char], step: u8) -> (r: Vec<char>)
    ensures
        r@ == todo_text(indent@, step),
{
    let mut out: Vec<char> = Vec::new();
    push_all(&mut out, indent);
    push_str(&mut out, "todo!(\"étape ");
    push_number(&mut out, step as usize);
    push_str(&mut out, " — voir le commentaire ci-dessus\")");
    assert(out@ =~= todo_text(indent@, step));
    out
}

/// A block is still open while one of its lines holds the placeholder call.
pub open spec fn block_open(body: Seq<Seq<char>>) -> bool {
    exists|j: int| 0 <= j < body.len() && #[trigger] find(body[j], placeholder_call()) is Some
}

/// Is the block still to be done (does it still hold its placeholder call)?
pub fn is_empty(block: &Block) -> (r: bool)
    ensures
        r == block_open(block@.body),
{
    let call = chars_of("todo!(");
    let ghost body = block@.body;
    let mut j: usize = 0;
    while j < block.body.len()
        invariant
            call@ == placeholder_call(),
            body == lines_view(block.body@),
            j <= body.len(),
            forall|x: int| 0 <= x < j ==> !(#[trigger] find(body[x], placeholder_call()) is Some),
        decreases body.len() - j,
    {
        assert(body[j as int] == block.body@[j as int]@);
        if find_at(&block.body[j], &call, 0).is_some() {
            assert(find(body[j as int], placeholder_call()) is Some);
            return true;
        }
        j = j + 1;
    }
    false
}

/// A line of the reference sources turned into a readable instruction: the step tag
/// `TODO-STEP:<n>` becomes `À FAIRE (étape <n>)`.
pub open spec fn humanized(line: Seq<char>) -> Seq<char> {
    match split_once(line, STEP_TAG@) {
        Some((before, after)) => {
            let n = digit_run(after);
            if n == 0 {
                line
            } else {
                before + "À FAIRE (étape "@ + after.take(n as int) + ")"@ + after.skip(n as int)
            }
        },
        None => line,
    }
}

/// The tag, followed by a run of digits, becomes the readable instruction with that whole
/// run as its step; what came before and after the tag's number is kept as it is.
pub proof fn lemma_humanize_tag(before: Seq<char>, d: Seq<char>, rest: Seq<char>)
    requires
        find(before, STEP_TAG@) is None,
        d.len() > 0,
        all_digits(d),
        rest.len() == 0 || !is_digit(rest[0]),
    ensures
        humanized(before + STEP_TAG@ + (d + rest)) == before + "À FAIRE (étape "@ + d + ")"@ + rest,
{
    reveal_strlit("TODO-STEP:");
    let tag = STEP_TAG@;
    assert(tag.len() == 10);
    assert forall|j: int| 0 <= j < tag.len() - 1 implies #[trigger] tag[j] != tag[tag.len() - 1] by {}
    lemma_find_after(before, tag, d + rest);
    let s = before + tag + (d + rest);
    assert(s.take(before.len() as int) =~= before);
    assert(s.skip((before.len() + tag.len()) as int) =~= d + rest);
    lemma_digit_run_of(d, rest);
    assert((d + rest).take(d.len() as int) =~= d);
    assert((d + rest).skip(d.len() as int) =~= rest);
}

/// Turns the machine marker of the reference sources into a readable instruction.
pub fn humanize_todo(line: &[char]) -> (r: Vec<char>)
    ensures
        r@ == humanized(line@),
{
    let tag = chars_of(STEP_TAG);
    let len = line.len();
    proof {
        lemma_find_from(line@, tag@, 0);
    }
    match find_at(line, &tag, 0) {
        Some(at) => {
            let from = at + tag.len();
            let n = digit_run_len(line, from);
            assert(from + n <= len);
            if n == 0 {
                assert(line@.skip(from as int) =~= line@.skip(at + tag@.len()));
                return slice_of(line, 0, line.len());
            }
            let mut out = slice_of(line, 0, at);
            push_str(&mut out, "À FAIRE (étape ");
            let digits = slice_of(line, from, from + n);
            push_all(&mut out, &digits);
            push_str(&mut out, ")");
            let rest = slice_of(line, from + n, line.len());
            push_all(&mut out, &rest);
            proof {
                let after = line@.skip(from as int);
                assert(after.take(n as int) =~= digits@);
                assert(after.skip(n as int) =~= rest@);
            }
            assert(out@ =~= humanized(line@));
            out
        },
        None => {
            let out = slice_of(line, 0, line.len());
            assert(out@ =~= line@);
            out
        },
    }
}

/// First block of `blocks`, from rank `k` on, that opens at line `i`.
pub open spec fn block_at(blocks: Seq<BlockModel>, i: nat, k: nat) -> Option<nat>
    decreases blocks.len() - k,
{
    if k >= blocks.len() {
        None
    } else if blocks[k as int].start == i {
        Some(k)
    } else {
        block_at(blocks, i, k + 1)
    }
}

/// The replacements, as models.
pub open spec fn replacements_view(r: Seq<Option<Vec<Vec<char>>>>) -> Seq<Option<Seq<Seq<char>>>> {
    r.map_values(
        |o: Option<Vec<Vec<char>>>|
            match o {
                Some(v) => Some(lines_view(v@)),
                None => None,
            },
    )
}

/// The lines from `i` on, with the body of each block that has a replacement replaced
/// (markers kept), and the number of blocks replaced.
pub open spec fn rewritten(
    lines: Seq<Seq<char>>,
    blocks: Seq<BlockModel>,
    repl: Seq<Option<Seq<Seq<char>>>>,
    i: nat,
) -> (Seq<Seq<char>>, nat)
    decreases lines.len() - i,
{
    if i >= lines.len() {
        (Seq::empty(), 0)
    } else {
        match block_at(blocks, i, 0) {
            Some(k) => if k < repl.len() && repl[k as int] is Some && i < blocks[k as int].end < lines.len() {
                let rest = rewritten(lines, blocks, repl, blocks[k as int].end + 1);
                (
                    seq![lines[i as int]] + repl[k as int]->0 + seq![lines[blocks[k as int].end as int]] + rest.0,
                    rest.1 + 1,
                )
            } else {
                let rest = rewritten(lines, blocks, repl, i + 1);
                (seq![lines[i as int]] + rest.0, rest.1)
            },
            None => {
                let rest = rewritten(lines, blocks, repl, i + 1);
                (seq![lines[i as int]] + rest.0, rest.1)
            },
        }
    }
}

/// Lines joined, each followed by a newline.
pub fn join_lines(lines: &[Vec<char>]) -> (r: Vec<char>)
    ensures
        r@ == crate::text::joined(lines_view(lines@)),
{
    let ghost all = lines_view(lines@);
    if lines.len() == 0 {
        let mut out: Vec<char> = Vec::new();
        out.push('\n');
        assert(out@ =~= crate::text::joined(all));
        return out;
    }
    let mut out: Vec<char> = Vec::new();
    let mut k: usize = 0;
    while k < lines.len()
        invariant
            all == lines_view(lines@),
            k <= all.len(),
            out@ == crate::text::ended_lines(all.take(k as int)),
        decreases all.len() - k,
    {
        let ghost before = out@;
        push_all(&mut out, &lines[k]);
        out.push('\n');
        proof {
            assert(all.take(k + 1).drop_last() =~= all.take(k as int));
            assert(all.take(k + 1).last() == lines@[k as int]@);
            assert(out@ =~= before + lines@[k as int]@.push('\n'));
        }
        k = k + 1;
    }
    assert(all.take(all.len() as int) =~= all);
    out
}

/// Viewing a list of lines after a push.
proof fn lemma_lines_view_push(v: Seq<Vec<char>>, x: Vec<char>)
    ensures
        lines_view(v.push(x)) == lines_view(v).push(x@),
{
    assert(lines_view(v.push(x)) =~= lines_view(v).push(x@));
}

/// A copy of a line.
fn copy_line(line: &Vec<char>) -> (r: Vec<char>)
    ensures
        r@ == line@,
{
    let r = slice_of(line.as_slice(), 0, line.len());
    assert(r@ =~= line@);
    r
}

/// First block opening at line `i`.
fn block_opening_at(blocks: &[Block], i: usize) -> (r: Option<usize>)
    ensures
        r is None <==> block_at(blocks_view(blocks@), i as nat, 0) is None,
        r matches Some(k) ==> block_at(blocks_view(blocks@), i as nat, 0) == Some(k as nat) && k < blocks@.len(),
{
    let ghost all = blocks_view(blocks@);
    let mut k: usize = 0;
    while k < blocks.len()
        invariant
            all == blocks_view(blocks@),
            k <= all.len(),
            block_at(all, i as nat, 0) == block_at(all, i as nat, k as nat),
        decreases all.len() - k,
    {
        if blocks[k].start == i {
            return Some(k);
        }
        k = k + 1;
    }
    None
}

/// A copy of a list of lines.
fn copy_all(lines: &Vec<Vec<char>>) -> (r: Vec<Vec<char>>)
    ensures
        lines_view(r@) == lines_view(lines@),
{
    let r = copy_lines(lines.as_slice(), 0, lines.len());
    assert(lines_view(lines@).subrange(0, lines@.len() as int) =~= lines_view(lines@));
    r
}

/// Rebuilds a file, the body of each block with a replacement (`replacement[k]` for
/// `blocks[k]`) replaced; gives the new text and the number of blocks replaced.
pub fn rewrite(text: &str, blocks: &[Block], replacement: &[Option<Vec<Vec<char>>>]) -> (r: (Vec<char>, usize))
    requires
        replacement@.len() == blocks@.len(),
        forall|k: int|
            0 <= k < blocks@.len() ==> #[trigger] blocks@[k].start < blocks@[k].end < text_lines(text@).len(),
    ensures
        r.0@ == crate::text::joined(
            rewritten(text_lines(text@), blocks_view(blocks@), replacements_view(replacement@), 0).0,
        ),
        r.1 == rewritten(text_lines(text@), blocks_view(blocks@), replacements_view(replacement@), 0).1,
{
    let chars = chars_of(text);
    let lines = text_lines_of(&chars);
    let ghost all = lines_view(lines@);
    let ghost bs = blocks_view(blocks@);
    let ghost rs = replacements_view(replacement@);
    let mut out: Vec<Vec<char>> = Vec::new();
    let mut changed: usize = 0;
    let mut i: usize = 0;
    while i < lines.len()
        invariant
            all == lines_view(lines@),
            all == text_lines(text@),
            bs == blocks_view(blocks@),
            rs == replacements_view(replacement@),
            rs.len() == bs.len(),
            i <= all.len(),
            changed <= i,
            lines_view(out@) + rewritten(all, bs, rs, i as nat).0 == rewritten(all, bs, rs, 0).0,
            changed + rewritten(all, bs, rs, i as nat).1 == rewritten(all, bs, rs, 0).1,
        decreases all.len() - i,
    {
        let ghost before = lines_view(out@);
        assert(all[i as int] == lines@[i as int]@);
        let mut done = false;
        match block_opening_at(blocks, i) {
            Some(k) => {
                let block = &blocks[k];
                let stop = block.end;
                match &replacement[k] {
                    Some(body) => {
                        if i < stop && stop < lines.len() {
                            assert(all[stop as int] == lines@[stop as int]@);
                            assert(rs[k as int] == Some(lines_view(body@)));
                            let first = copy_line(&lines[i]);
                            proof {
                                lemma_lines_view_push(out@, first);
                            }
                            out.push(first);
                            let copied = copy_all(body);
                            let mut j: usize = 0;
                            let ghost mid = lines_view(out@);
                            while j < copied.len()
                                invariant
                                    j <= copied@.len(),
                                    lines_view(out@) == mid + lines_view(copied@).take(j as int),
                                decreases copied@.len() - j,
                            {
                                let piece = copy_line(&copied[j]);
                                proof {
                                    lemma_lines_view_push(out@, piece);
                                    assert(lines_view(copied@)[j as int] == copied@[j as int]@);
                                }
                                out.push(piece);
                                j = j + 1;
                                assert(lines_view(out@) =~= mid + lines_view(copied@).take(j as int));
                            }
                            assert(lines_view(copied@).take(j as int) =~= lines_view(copied@));
                            let last = copy_line(&lines[stop]);
                            proof {
                                lemma_lines_view_push(out@, last);
                            }
                            out.push(last);
                            proof {
                                assert(lines_view(out@) =~= before + (seq![all[i as int]] + lines_view(body@) + seq![
                                    all[stop as int],
                                ]));
                                let rest = rewritten(all, bs, rs, (stop + 1) as nat);
                                assert(rewritten(all, bs, rs, i as nat) == (
                                    seq![all[i as int]] + rs[k as int]->0 + seq![all[stop as int]] + rest.0,
                                    rest.1 + 1,
                                ));
                                assert(before + (seq![all[i as int]] + lines_view(body@) + seq![all[stop as int]])
                                    + rest.0 =~= before + (seq![all[i as int]] + rs[k as int]->0 + seq![all[stop as int]]
                                    + rest.0));
                            }
                            changed = changed + 1;
                            i = stop + 1;
                            done = true;
                        }
                    },
                    None => {},
                }
            },
            None => {},
        }
        if !done {
            let line = copy_line(&lines[i]);
            proof {
                lemma_lines_view_push(out@, line);
            }
            out.push(line);
            proof {
                let rest = rewritten(all, bs, rs, (i + 1) as nat);
                assert(rewritten(all, bs, rs, i as nat) == (seq![all[i as int]] + rest.0, rest.1));
                assert(lines_view(out@) =~= before.push(all[i as int]));
                assert(before.push(all[i as int]) + rest.0 =~= before + (seq![all[i as int]] + rest.0));
            }
            i = i + 1;
        }
    }
    proof {
        assert(rewritten(all, bs, rs, i as nat).0 =~= Seq::<Seq<char>>::empty());
        assert(lines_view(out@) + Seq::<Seq<char>>::empty() =~= lines_view(out@));
    }
    let text_out = join_lines(&out);
    proof {
        assert(lines_view(out@) =~= rewritten(all, bs, rs, 0).0);
    }
    (text_out, changed)
}

/// Every block found lies within the lines, its closing marker after its opening one.
pub proof fn lemma_blocks_within(lines: Seq<Seq<char>>, i: nat, ordinal: nat, begin: Seq<char>, end: Seq<char>)
    ensures
        forall|k: int|
            0 <= k < blocks_from(lines, i, ordinal, begin, end).len() ==> i <= (#[trigger] blocks_from(
                lines,
                i,
                ordinal,
                begin,
                end,
            )[k]).start && blocks_from(lines, i, ordinal, begin, end)[k].start < blocks_from(
                lines,
                i,
                ordinal,
                begin,
                end,
            )[k].end < lines.len(),
    decreases lines.len() - i,
{
    let all = blocks_from(lines, i, ordinal, begin, end);
    if i < lines.len() {
        if !is_marker(lines[i as int], begin) {
            lemma_blocks_within(lines, i + 1, ordinal, begin, end);
            assert(all == blocks_from(lines, i + 1, ordinal, begin, end));
        } else {
            match first_marker(lines, i + 1, end) {
                Some(stop) => if i < stop < lines.len() {
                    lemma_blocks_within(lines, stop + 1, ordinal + 1, begin, end);
                    let rest = blocks_from(lines, stop + 1, ordinal + 1, begin, end);
                    assert forall|k: int| 0 <= k < all.len() implies i <= (#[trigger] all[k]).start && all[k].start
                        < all[k].end < lines.len() by {
                        if k > 0 {
                            assert(all[k] == rest[k - 1]);
                        }
                    }
                },
                None => {},
            }
        }
    }
}

/// The reference text of one block: a header naming the file, the step and the rank,
/// the body, and a closing line.
pub open spec fn entry_text(key: Seq<char>, b: BlockModel) -> Seq<char> {
    "@@ "@ + key + " @@ "@ + decimal(b.step as nat) + " @@ "@ + decimal(b.ordinal) + "\n"@ + crate::text::ended_lines(b.body)
        + "@@\n"@
}

/// The reference text of all the blocks of a file.
pub open spec fn reference_chunk(key: Seq<char>, blocks: Seq<BlockModel>) -> Seq<char>
    decreases blocks.len(),
{
    if blocks.len() == 0 {
        Seq::empty()
    } else {
        reference_chunk(key, blocks.drop_last()) + entry_text(key, blocks.last())
    }
}

/// The lines of a working copy, from line `i` on: each block becomes its two markers
/// around a placeholder line, each other line is made readable; and the number of blocks.
pub open spec fn starter_lines(lines: Seq<Seq<char>>, blocks: Seq<BlockModel>, i: nat) -> (Seq<Seq<char>>, nat)
    decreases lines.len() - i,
{
    if i >= lines.len() {
        (Seq::empty(), 0)
    } else {
        match block_at(blocks, i, 0) {
            Some(k) => if i < blocks[k as int].end < lines.len() {
                let b = blocks[k as int];
                let rest = starter_lines(lines, blocks, b.end + 1);
                (
                    seq![
                        b.indent + REGION_BEGIN@ + decimal(b.step as nat) + " — à compléter"@,
                        todo_text(b.indent, b.step),
                        b.indent + REGION_END@ + decimal(b.step as nat),
                    ] + rest.0,
                    rest.1 + 1,
                )
            } else {
                let rest = starter_lines(lines, blocks, i + 1);
                (seq![humanized(lines[i as int])] + rest.0, rest.1)
            },
            None => {
                let rest = starter_lines(lines, blocks, i + 1);
                (seq![humanized(lines[i as int])] + rest.0, rest.1)
            },
        }
    }
}

/// The solution blocks of a reference text.
pub open spec fn solution_blocks(text: Seq<char>) -> Seq<BlockModel> {
    blocks_in(text, SOLUTION_BEGIN@, SOLUTION_END@)
}

/// The working copy of one source file, `key` being its path: its new text, its
/// reference text and its number of blocks; nothing when it has no solution block.
pub fn starter_file(text: &str, key: &str) -> (r: Option<(Vec<char>, Vec<char>, usize)>)
    ensures
        match r {
            Some((new_text, chunk, holes)) => {
                &&& solution_blocks(text@).len() > 0
                &&& new_text@ == crate::text::joined(starter_lines(text_lines(text@), solution_blocks(text@), 0).0)
                &&& chunk@ == reference_chunk(key@, solution_blocks(text@))
                &&& holes == starter_lines(text_lines(text@), solution_blocks(text@), 0).1
            },
            None => solution_blocks(text@).len() == 0,
        },
{
    let blocks = find_blocks(text, SOLUTION_BEGIN, SOLUTION_END);
    if blocks.len() == 0 {
        return None;
    }
    let key_chars = chars_of(key);
    let ghost bs = blocks_view(blocks@);
    let mut chunk: Vec<char> = Vec::new();
    let mut k: usize = 0;
    while k < blocks.len()
        invariant
            bs == blocks_view(blocks@),
            key_chars@ == key@,
            k <= bs.len(),
            chunk@ == reference_chunk(key@, bs.take(k as int)),
        decreases bs.len() - k,
    {
        let b = &blocks[k];
        let ghost before = chunk@;
        push_str(&mut chunk, "@@ ");
        push_all(&mut chunk, &key_chars);
        push_str(&mut chunk, " @@ ");
        push_number(&mut chunk, b.step as usize);
        push_str(&mut chunk, " @@ ");
        push_number(&mut chunk, b.ordinal);
        push_str(&mut chunk, "\n");
        let body = join_body(&b.body);
        push_all(&mut chunk, &body);
        push_str(&mut chunk, "@@\n");
        proof {
            assert(bs.take(k + 1).drop_last() =~= bs.take(k as int));
            assert(bs.take(k + 1).last() == b@);
            assert(chunk@ =~= before + entry_text(key@, b@));
        }
        k = k + 1;
    }
    assert(bs.take(bs.len() as int) =~= bs);
    let chars = chars_of(text);
    let lines = text_lines_of(&chars);
    let ghost all = lines_view(lines@);
    proof {
        lemma_blocks_within(all, 0, 0, SOLUTION_BEGIN@, SOLUTION_END@);
    }
    let mut out: Vec<Vec<char>> = Vec::new();
    let mut holes: usize = 0;
    let mut i: usize = 0;
    while i < lines.len()
        invariant
            all == lines_view(lines@),
            all == text_lines(text@),
            bs == blocks_view(blocks@),
            bs == solution_blocks(text@),
            i <= all.len(),
            holes <= i,
            lines_view(out@) + starter_lines(all, bs, i as nat).0 == starter_lines(all, bs, 0).0,
            holes + starter_lines(all, bs, i as nat).1 == starter_lines(all, bs, 0).1,
        decreases all.len() - i,
    {
        let ghost before = lines_view(out@);
        assert(all[i as int] == lines@[i as int]@);
        let mut done = false;
        match block_opening_at(&blocks, i) {
            Some(k) => {
                let b = &blocks[k];
                if i < b.end && b.end < lines.len() {
                    let mut open_line = slice_of(&b.indent, 0, b.indent.len());
                    assert(open_line@ =~= b.indent@);
                    push_str(&mut open_line, REGION_BEGIN);
                    push_number(&mut open_line, b.step as usize);
                    push_str(&mut open_line, " — à compléter");
                    let todo = todo_line(&b.indent, b.step);
                    let mut close_line = slice_of(&b.indent, 0, b.indent.len());
                    assert(close_line@ =~= b.indent@);
                    push_str(&mut close_line, REGION_END);
                    push_number(&mut close_line, b.step as usize);
                    assert(bs[k as int] == b@);
                    proof {
                        lemma_lines_view_push(out@, open_line);
                    }
                    out.push(open_line);
                    proof {
                        lemma_lines_view_push(out@, todo);
                    }
                    out.push(todo);
                    proof {
                        lemma_lines_view_push(out@, close_line);
                    }
                    out.push(close_line);
                    proof {
                        let bm = bs[k as int];
                        let rest = starter_lines(all, bs, bm.end + 1);
                        let three = seq![
                            bm.indent + REGION_BEGIN@ + decimal(bm.step as nat) + " — à compléter"@,
                            todo_text(bm.indent, bm.step),
                            bm.indent + REGION_END@ + decimal(bm.step as nat),
                        ];
                        assert(starter_lines(all, bs, i as nat) == (three + rest.0, rest.1 + 1));
                        assert(lines_view(out@) =~= before + three);
                        assert(before + three + rest.0 =~= before + (three + rest.0));
                    }
                    holes = holes + 1;
                    i = b.end + 1;
                    done = true;
                }
            },
            None => {},
        }
        if !done {
            let line = humanize_todo(&lines[i]);
            proof {
                lemma_lines_view_push(out@, line);
            }
            out.push(line);
            proof {
                let rest = starter_lines(all, bs, (i + 1) as nat);
                assert(starter_lines(all, bs, i as nat) == (seq![humanized(all[i as int])] + rest.0, rest.1));
                assert(before.push(humanized(all[i as int])) + rest.0 =~= before + (seq![humanized(all[i as int])]
                    + rest.0));
            }
            i = i + 1;
        }
    }
    proof {
        assert(starter_lines(all, bs, i as nat).0 =~= Seq::<Seq<char>>::empty());
        assert(lines_view(out@) + Seq::<Seq<char>>::empty() =~= lines_view(out@));
    }
    let new_text = join_lines(&out);
    Some((new_text, chunk, holes))
}

/// The lines of a body, each followed by a newline.
fn join_body(body: &Vec<Vec<char>>) -> (r: Vec<char>)
    ensures
        r@ == crate::text::ended_lines(lines_view(body@)),
{
    let ghost all = lines_view(body@);
    let mut out: Vec<char> = Vec::new();
    let mut k: usize = 0;
    while k < body.len()
        invariant
            all == lines_view(body@),
            k <= all.len(),
            out@ == crate::text::ended_lines(all.take(k as int)),
        decreases all.len() - k,
    {
        let ghost before = out@;
        push_all(&mut out, &body[k]);
        out.push('\n');
        proof {
            assert(all.take(k + 1).drop_last() =~= all.take(k as int));
            assert(all.take(k + 1).last() == body@[k as int]@);
            assert(out@ =~= before + body@[k as int]@.push('\n'));
        }
        k = k + 1;
    }
    assert(all.take(all.len() as int) =~= all);
    out
}

/// A reference block read back: the file it belongs to, its rank there, its body.
#[derive(Debug)]
pub struct Entry {
    /// Path of the file, relative to the root.
    pub key: Vec<char>,
    /// Rank of the block in its file.
    pub ordinal: usize,
    /// Lines of the body.
    pub body: Vec<Vec<char>>,
}

/// Mathematical model of a reference block.
pub struct EntryModel {
    /// Path of the file.
    pub key: Seq<char>,
    /// Rank of the block in its file.
    pub ordinal: nat,
    /// Lines of the body.
    pub body: Seq<Seq<char>>,
}

impl View for Entry {
    type V = EntryModel;

    open spec fn view(&self) -> EntryModel {
        EntryModel { key: self.key@, ordinal: self.ordinal as nat, body: lines_view(self.body@) }
    }
}

/// The models of a list of entries.
pub open spec fn entries_view(entries: Seq<Entry>) -> Seq<EntryModel> {
    entries.map_values(|e: Entry| e@)
}

/// Reading state of a reference text: the header being read, the lines of its body so
/// far, and the entries closed so far.
pub struct ReadState {
    /// File and rank announced by the last header, until its block closes.
    pub key: Option<(Seq<char>, nat)>,
    /// Lines read since the last header or closing line.
    pub body: Seq<Seq<char>>,
    /// Entries closed so far, in order.
    pub entries: Seq<EntryModel>,
}

/// One line of a reference text read. A header `@@ <file> @@ <step> @@ <rank>` opens an
/// entry (a header with another number of fields is skipped; an unreadable rank is an
/// error); a line `@@` closes the open entry; any other line is a body line.
pub open spec fn read_line(st: Option<ReadState>, line: Seq<char>) -> Option<ReadState> {
    match st {
        None => None,
        Some(st) => if starts_with(line, "@@ "@) {
            let fields = split_all(line.skip(3), " @@ "@);
            if fields.len() == 3 {
                match parse_unsigned(fields[2], usize::MAX as nat) {
                    Some(o) => Some(ReadState { key: Some((fields[0], o)), body: Seq::empty(), entries: st.entries }),
                    None => None,
                }
            } else {
                Some(st)
            }
        } else if line == "@@"@ {
            match st.key {
                Some((k, o)) => Some(
                    ReadState {
                        key: None,
                        body: Seq::empty(),
                        entries: st.entries.push(EntryModel { key: k, ordinal: o, body: st.body }),
                    },
                ),
                None => Some(st),
            }
        } else {
            Some(ReadState { body: st.body.push(line), ..st })
        },
    }
}

/// The state after reading all of `lines`; none after an unreadable rank.
pub open spec fn read_all(lines: Seq<Seq<char>>) -> Option<ReadState>
    decreases lines.len(),
{
    if lines.len() == 0 {
        Some(ReadState { key: None, body: Seq::empty(), entries: Seq::empty() })
    } else {
        read_line(read_all(lines.drop_last()), lines.last())
    }
}

/// The body recorded last for the block of rank `ordinal` of file `key`.
pub open spec fn reference_body(entries: Seq<EntryModel>, key: Seq<char>, ordinal: nat) -> Option<Seq<Seq<char>>>
    decreases entries.len(),
{
    if entries.len() == 0 {
        None
    } else if entries.last().key == key && entries.last().ordinal == ordinal {
        Some(entries.last().body)
    } else {
        reference_body(entries.drop_last(), key, ordinal)
    }
}

/// The body found for a block is one recorded for that very file and ordinal, the last
/// such; none is found when no entry has that file and ordinal.
pub proof fn lemma_reference_body(entries: Seq<EntryModel>, key: Seq<char>, ordinal: nat)
    ensures
        match reference_body(entries, key, ordinal) {
            Some(body) => exists|i: int|
                0 <= i < entries.len() && #[trigger] entries[i].key == key && entries[i].ordinal == ordinal
                    && entries[i].body == body && forall|j: int|
                    i < j < entries.len() ==> !(#[trigger] entries[j].key == key && entries[j].ordinal == ordinal),
            None => forall|i: int| 0 <= i < entries.len() ==> !(#[trigger] entries[i].key == key && entries[i].ordinal == ordinal),
        },
    decreases entries.len(),
{
    if entries.len() > 0 {
        let init = entries.drop_last();
        lemma_reference_body(init, key, ordinal);
        let last = entries.len() - 1;
        if entries.last().key == key && entries.last().ordinal == ordinal {
            assert(entries[last].key == key);
        } else {
            match reference_body(init, key, ordinal) {
                Some(body) => {
                    let i = choose|i: int|
                        0 <= i < init.len() && #[trigger] init[i].key == key && init[i].ordinal == ordinal && init[i].body
                            == body && forall|j: int| i < j < init.len() ==> !(#[trigger] init[j].key == key && init[j].ordinal == ordinal);
                    assert(entries[i] == init[i]);
                    assert forall|j: int| i < j < entries.len() implies !(#[trigger] entries[j].key == key && entries[j].ordinal
                        == ordinal) by {
                        if j < last {
                            assert(entries[j] == init[j]);
                        }
                    }
                },
                None => {
                    assert forall|i: int| 0 <= i < entries.len() implies !(#[trigger] entries[i].key == key
                        && entries[i].ordinal == ordinal) by {
                        if i < last {
                            assert(entries[i] == init[i]);
                        }
                    }
                },
            }
        }
    }
}

/// The pieces of `s` between the occurrences of `p`, as `str::split` gives them.
fn split_pieces(s: &[char], p: &[char]) -> (r: Vec<Vec<char>>)
    requires
        p@.len() > 0,
    ensures
        lines_view(r@) == split_all(s@, p@),
{
    let len = s.len();
    let mut out: Vec<Vec<char>> = Vec::new();
    let mut from: usize = 0;
    assert(s@.skip(0) =~= s@);
    assert(lines_view(out@) + split_all(s@, p@) =~= split_all(s@, p@));
    loop
        invariant
            len == s@.len(),
            p@.len() > 0,
            from <= len,
            lines_view(out@) + split_all(s@.skip(from as int), p@) == split_all(s@, p@),
        decreases len - from,
    {
        let ghost rest = s@.skip(from as int);
        let ghost before = lines_view(out@);
        let found = find_at(s, p, from);
        proof {
            lemma_find_from(s@, p@, from as nat);
            lemma_find_shift(s@, p@, from as nat);
        }
        match found {
            Some(at) => {
                let piece = slice_of(s, from, at);
                proof {
                    lemma_lines_view_push(out@, piece);
                    assert(rest.take((at - from) as int) =~= piece@);
                    assert(rest.skip((at - from + p@.len()) as int) =~= s@.skip((at + p@.len()) as int));
                }
                out.push(piece);
                proof {
                    assert(before.push(piece@) + split_all(s@.skip((at + p@.len()) as int), p@) =~= before + (seq![
                        piece@,
                    ] + split_all(s@.skip((at + p@.len()) as int), p@)));
                }
                from = at + p.len();
            },
            None => {
                let piece = slice_of(s, from, len);
                proof {
                    lemma_lines_view_push(out@, piece);
                    assert(piece@ =~= rest);
                    assert(before.push(piece@) =~= before + seq![rest]);
                }
                out.push(piece);
                return out;
            },
        }
    }
}

/// Searching from `i` is searching the rest of the text.
proof fn lemma_find_shift(s: Seq<char>, p: Seq<char>, i: nat)
    requires
        i <= s.len(),
    ensures
        match find_from(s, p, i) {
            Some(j) => find(s.skip(i as int), p) == Some((j - i) as nat),
            None => find(s.skip(i as int), p) is None,
        },
{
    let t = s.skip(i as int);
    lemma_find_from(s, p, i);
    lemma_find_from(t, p, 0);
    assert forall|k: int| 0 <= k implies (#[trigger] crate::text::occurs_at(t, p, k) <==> crate::text::occurs_at(s, p, k + i)) by {
        if 0 <= k && k + p.len() <= t.len() {
            assert(t.subrange(k, k + p.len()) =~= s.subrange(k + i, k + i + p.len()));
        }
    }
    match find_from(s, p, i) {
        Some(j) => {
            assert(crate::text::occurs_at(t, p, j - i));
            match find_from(t, p, 0) {
                Some(m) => {
                    assert(crate::text::occurs_at(s, p, (m + i) as int));
                    if m + i < j {
                        assert(!crate::text::occurs_at(s, p, (m + i) as int));
                    }
                    if m + i > j {
                        assert(!crate::text::occurs_at(t, p, j - i));
                    }
                },
                None => {},
            }
        },
        None => {
            match find_from(t, p, 0) {
                Some(m) => {
                    assert(crate::text::occurs_at(s, p, (m + i) as int));
                },
                None => {},
            }
        },
    }
}

/// Reads back a reference text: the entries it holds, in order, or the message for an
/// unreadable rank.
pub fn parse_reference(text: &str) -> (r: Result<Vec<Entry>, String>)
    ensures
        match r {
            Ok(entries) => read_all(text_lines(text@)) matches Some(st) && entries_view(entries@) == st.entries,
            Err(message) => read_all(text_lines(text@)) is None && message@ == "numéro d'ordre illisible"@,
        },
{
    let chars = chars_of(text);
    let lines = text_lines_of(&chars);
    let ghost all = lines_view(lines@);
    let header = chars_of("@@ ");
    let close = chars_of("@@");
    let separator = chars_of(" @@ ");
    proof {
        reveal_strlit("@@ ");
        reveal_strlit(" @@ ");
    }
    assert(header@.len() == 3);
    assert(separator@.len() > 0);
    let mut key: Option<(Vec<char>, usize)> = None;
    let mut body: Vec<Vec<char>> = Vec::new();
    let mut entries: Vec<Entry> = Vec::new();
    let mut i: usize = 0;
    proof {
        assert(all.take(0) =~= Seq::<Seq<char>>::empty());
        assert(lines_view(body@) =~= Seq::<Seq<char>>::empty());
        assert(entries_view(entries@) =~= Seq::<EntryModel>::empty());
    }
    while i < lines.len()
        invariant
            all == lines_view(lines@),
            all == text_lines(text@),
            header@ == "@@ "@,
            header@.len() == 3,
            close@ == "@@"@,
            separator@ == " @@ "@,
            separator@.len() > 0,
            i <= all.len(),
            read_all(all.take(i as int)) == Some(
                ReadState {
                    key: match key {
                        Some((k, o)) => Some((k@, o as nat)),
                        None => None,
                    },
                    body: lines_view(body@),
                    entries: entries_view(entries@),
                },
            ),
        decreases all.len() - i,
    {
        let line = &lines[i];
        let ghost st = read_all(all.take(i as int));
        proof {
            assert(all.take(i + 1).drop_last() =~= all.take(i as int));
            assert(all.take(i + 1).last() == line@);
        }
        if matches_at(line, 0, &header) {
            assert(line@.skip(0) =~= line@);
            let rest = slice_of(line, 3, line.len());
            assert(rest@ =~= line@.skip(3));
            let fields = split_pieces(&rest, &separator);
            if fields.len() == 3 {
                assert(lines_view(fields@)[2] == fields@[2]@);
                assert(lines_view(fields@)[0] == fields@[0]@);
                match parse_number(&fields[2], usize::MAX as u64) {
                    Some(o) => {
                        let name = slice_of(&fields[0], 0, fields[0].len());
                        assert(name@ =~= fields@[0]@);
                        key = Some((name, o as usize));
                        body = Vec::new();
                        proof {
                            assert(lines_view(body@) =~= Seq::<Seq<char>>::empty());
                        }
                    },
                    None => {
                        let mut message = String::new();
                        message.append("numéro d'ordre illisible");
                        proof {
                            lemma_read_all_fails(all, i as nat);
                        }
                        return Err(message);
                    },
                }
            }
        } else if same_chars(line, &close) {
            match key {
                Some((k, o)) => {
                    let ghost before = entries_view(entries@);
                    let entry = Entry { key: k, ordinal: o, body };
                    entries.push(entry);
                    proof {
                        assert(entries_view(entries@) =~= before.push(entry@));
                    }
                    key = None;
                    body = Vec::new();
                    assert(lines_view(body@) =~= Seq::<Seq<char>>::empty());
                },
                None => {},
            }
        } else {
            let piece = copy_line(line);
            proof {
                lemma_lines_view_push(body@, piece);
            }
            body.push(piece);
        }
        i = i + 1;
    }
    assert(all.take(all.len() as int) =~= all);
    Ok(entries)
}

/// Once a rank is unreadable, the reading stays failed.
proof fn lemma_read_all_fails(lines: Seq<Seq<char>>, i: nat)
    requires
        i < lines.len(),
        read_all(lines.take((i + 1) as int)) is None,
    ensures
        read_all(lines) is None,
    decreases lines.len() - i,
{
    if i + 1 < lines.len() {
        assert(lines.drop_last().take((i + 1) as int) =~= lines.take((i + 1) as int));
        lemma_read_all_fails(lines.drop_last(), i);
    } else {
        assert(lines.take((i + 1) as int) =~= lines);
    }
}

/// What `fill` puts in each block of a file: the reference body of the blocks of step
/// `step` that are still open (all of them with `force`), nothing for the others.
pub open spec fn fill_plan(
    blocks: Seq<BlockModel>,
    step: u8,
    force: bool,
    key: Seq<char>,
    entries: Seq<EntryModel>,
) -> Seq<Option<Seq<Seq<char>>>> {
    Seq::new(
        blocks.len(),
        |k: int|
            if blocks[k].step != step || (!force && !block_open(blocks[k].body)) {
                None
            } else {
                reference_body(entries, key, blocks[k].ordinal)
            },
    )
}

/// What `reset` puts in each block of a file: a placeholder line in the blocks of step
/// `step` that were filled, nothing for the others.
pub open spec fn reset_plan(blocks: Seq<BlockModel>, step: u8) -> Seq<Option<Seq<Seq<char>>>> {
    Seq::new(
        blocks.len(),
        |k: int|
            if blocks[k].step == step && !block_open(blocks[k].body) {
                Some(seq![todo_text(blocks[k].indent, blocks[k].step)])
            } else {
                None
            },
    )
}

/// A placeholder line holds the placeholder call.
proof fn lemma_todo_text_is_open(indent: Seq<char>, step: u8)
    ensures
        find(todo_text(indent, step), placeholder_call()) is Some,
{
    reveal_strlit("todo!(");
    reveal_strlit("todo!(\"étape ");
    let t = todo_text(indent, step);
    let p = placeholder_call();
    let i = indent.len() as int;
    assert(t.subrange(i, i + p.len()) =~= p);
    assert(occurs_at(t, p, i));
    lemma_find_from(t, p, 0);
}

/// `goto` never overwrites what was written: filling without forcing gives no
/// replacement to a block that no longer holds its placeholder call, nor to a block of
/// another step.
pub proof fn lemma_fill_keeps_written_blocks(blocks: Seq<BlockModel>, step: u8, key: Seq<char>, entries: Seq<EntryModel>)
    ensures
        forall|k: int|
            0 <= k < blocks.len() && (blocks[k].step != step || !block_open(blocks[k].body)) ==> (#[trigger] fill_plan(
                blocks,
                step,
                false,
                key,
                entries,
            )[k]) is None,
{
}

/// `reset` reopens the blocks of its step: each of them that was filled gets back a
/// placeholder line, which holds the placeholder call again; every other block is left as
/// it is.
pub proof fn lemma_reset_reopens(blocks: Seq<BlockModel>, step: u8)
    ensures
        forall|k: int|
            0 <= k < blocks.len() ==> match #[trigger] reset_plan(blocks, step)[k] {
                Some(body) => blocks[k].step == step && !block_open(blocks[k].body) && block_open(body),
                None => blocks[k].step != step || block_open(blocks[k].body),
            },
{
    assert forall|k: int| 0 <= k < blocks.len() implies match #[trigger] reset_plan(blocks, step)[k] {
        Some(body) => blocks[k].step == step && !block_open(blocks[k].body) && block_open(body),
        None => blocks[k].step != step || block_open(blocks[k].body),
    } by {
        if blocks[k].step == step && !block_open(blocks[k].body) {
            let body = seq![todo_text(blocks[k].indent, blocks[k].step)];
            lemma_todo_text_is_open(blocks[k].indent, blocks[k].step);
            assert(find(body[0], placeholder_call()) is Some);
        }
    }
}

/// The body recorded last for a block.
fn reference_for(entries: &[Entry], key: &[char], ordinal: usize) -> (r: Option<Vec<Vec<char>>>)
    ensures
        match r {
            Some(body) => reference_body(entries_view(entries@), key@, ordinal as nat) == Some(lines_view(body@)),
            None => reference_body(entries_view(entries@), key@, ordinal as nat) is None,
        },
{
    let ghost all = entries_view(entries@);
    let mut k = entries.len();
    assert(all.take(k as int) =~= all);
    while k > 0
        invariant
            k <= all.len(),
            all == entries_view(entries@),
            reference_body(all, key@, ordinal as nat) == reference_body(all.take(k as int), key@, ordinal as nat),
        decreases k,
    {
        let e = &entries[k - 1];
        proof {
            assert(all.take(k as int).last() == e@);
            assert(all.take(k as int).drop_last() =~= all.take(k - 1));
        }
        if e.ordinal == ordinal && same_chars(&e.key, key) {
            return Some(copy_all(&e.body));
        }
        k = k - 1;
    }
    None
}

/// The replacements `fill` makes in the blocks of a file.
pub fn fill_replacements(blocks: &[Block], step: u8, force: bool, key: &[char], entries: &[Entry]) -> (r: Vec<
    Option<Vec<Vec<char>>>,
>)
    ensures
        replacements_view(r@) == fill_plan(blocks_view(blocks@), step, force, key@, entries_view(entries@)),
{
    let ghost target = fill_plan(blocks_view(blocks@), step, force, key@, entries_view(entries@));
    let mut out: Vec<Option<Vec<Vec<char>>>> = Vec::new();
    let mut k: usize = 0;
    while k < blocks.len()
        invariant
            k <= blocks@.len(),
            target == fill_plan(blocks_view(blocks@), step, force, key@, entries_view(entries@)),
            replacements_view(out@) == target.take(k as int),
        decreases blocks@.len() - k,
    {
        let b = &blocks[k];
        let ghost before = replacements_view(out@);
        let item = if b.step != step || (!force && !is_empty(b)) {
            None
        } else {
            reference_for(entries, key, b.ordinal)
        };
        let ghost item_view = replacements_view(seq![item])[0];
        proof {
            assert(blocks_view(blocks@)[k as int] == b@);
            assert(item_view == target[k as int]);
        }
        out.push(item);
        proof {
            assert(replacements_view(out@) =~= before.push(item_view));
            assert(replacements_view(out@) =~= target.take(k + 1));
        }
        k = k + 1;
    }
    assert(target.take(k as int) =~= target);
    out
}

/// The replacements `reset` makes in the blocks of a file.
pub fn reset_replacements(blocks: &[Block], step: u8) -> (r: Vec<Option<Vec<Vec<char>>>>)
    ensures
        replacements_view(r@) == reset_plan(blocks_view(blocks@), step),
{
    let ghost target = reset_plan(blocks_view(blocks@), step);
    let mut out: Vec<Option<Vec<Vec<char>>>> = Vec::new();
    let mut k: usize = 0;
    while k < blocks.len()
        invariant
            k <= blocks@.len(),
            target == reset_plan(blocks_view(blocks@), step),
            replacements_view(out@) == target.take(k as int),
        decreases blocks@.len() - k,
    {
        let b = &blocks[k];
        let ghost before = replacements_view(out@);
        let item = if b.step == step && !is_empty(b) {
            let mut body: Vec<Vec<char>> = Vec::new();
            body.push(todo_line(&b.indent, b.step));
            proof {
                assert(lines_view(body@) =~= seq![todo_text(b.indent@, b.step)]);
            }
            Some(body)
        } else {
            None
        };
        let ghost item_view = replacements_view(seq![item])[0];
        proof {
            assert(blocks_view(blocks@)[k as int] == b@);
            assert(item_view == target[k as int]);
        }
        out.push(item);
        proof {
            assert(replacements_view(out@) =~= before.push(item_view));
            assert(replacements_view(out@) =~= target.take(k + 1));
        }
        k = k + 1;
    }
    assert(target.take(k as int) =~= target);
    out
}

/// First line, from `k` on, that starts with `prefix`.
pub open spec fn first_starting(lines: Seq<Seq<char>>, prefix: Seq<char>, k: nat) -> Option<nat>
    decreases lines.len() - k,
{
    if k >= lines.len() {
        None
    } else if starts_with(lines[k as int], prefix) {
        Some(k)
    } else {
        first_starting(lines, prefix, k + 1)
    }
}

/// First line that starts with `prefix`.
fn first_line_starting(lines: &[Vec<char>], prefix: &[char]) -> (r: Option<usize>)
    ensures
        r is None <==> first_starting(lines_view(lines@), prefix@, 0) is None,
        r matches Some(k) ==> first_starting(lines_view(lines@), prefix@, 0) == Some(k as nat) && k < lines@.len(),
{
    let ghost all = lines_view(lines@);
    let mut k: usize = 0;
    while k < lines.len()
        invariant
            k <= all.len(),
            all == lines_view(lines@),
            first_starting(all, prefix@, 0) == first_starting(all, prefix@, k as nat),
        decreases all.len() - k,
    {
        assert(all[k as int] == lines@[k as int]@);
        assert(lines@[k as int]@.skip(0) =~= lines@[k as int]@);
        if matches_at(&lines[k], 0, prefix) {
            return Some(k);
        }
        k = k + 1;
    }
    None
}

/// The manifest with its `default = [...]` line set to `default = <value>`; nothing when
/// there is no such line.
pub open spec fn with_default(text: Seq<char>, value: Seq<char>) -> Option<Seq<char>> {
    let lines = text_lines(text);
    match first_starting(lines, "default = ["@, 0) {
        Some(k) => Some(crate::text::joined(lines.update(k as int, "default = "@ + value))),
        None => None,
    }
}

/// Sets the value of the first `default = [...]` line of a manifest.
pub fn rewrite_default(text: &str, value: &str) -> (r: Option<Vec<char>>)
    ensures
        match r {
            Some(t) => with_default(text@, value@) == Some(t@),
            None => with_default(text@, value@) is None,
        },
{
    let chars = chars_of(text);
    let mut lines = text_lines_of(&chars);
    let prefix = chars_of("default = [");
    match first_line_starting(&lines, &prefix) {
        Some(k) => {
            let mut line = chars_of("default = ");
            push_str(&mut line, value);
            let ghost before = lines_view(lines@);
            lines.set(k, line);
            proof {
                assert(lines_view(lines@) =~= before.update(k as int, "default = "@ + value@));
            }
            Some(join_lines(&lines))
        },
        None => None,
    }
}

/// The step a manifest declares: the digits after `step` on its `default = [...]` line.
pub open spec fn declared_step(text: Seq<char>) -> Option<u8> {
    let lines = text_lines(text);
    match first_starting(lines, "default = ["@, 0) {
        Some(k) => match split_once(lines[k as int], "step"@) {
            Some((_, rest)) => parse_u8(rest.take(digit_run(rest) as int)),
            None => None,
        },
        None => None,
    }
}

/// `decimal(n)` is a nonempty run of digits whose value is `n`.
proof fn lemma_decimal_digits(n: nat)
    ensures
        decimal(n).len() > 0,
        all_digits(decimal(n)),
        digits_value(decimal(n)) == n,
    decreases n,
{
    if n >= 10 {
        lemma_decimal_digits(n / 10);
        let d = decimal(n / 10);
        let r = decimal(n);
        assert(r == d.push(crate::error::digit_char(n % 10)));
        assert forall|i: int| 0 <= i < r.len() implies #[trigger] is_digit(r[i]) by {
            if i < d.len() {
                assert(r[i] == d[i]);
            }
        }
        assert(r.drop_last() == d);
        let last = crate::error::digit_char(n % 10);
        assert(r.last() == last);
        assert(last as int == 48 + n % 10);
        assert('0' as int == 48);
        assert(digits_value(r) == digits_value(d) * 10 + (n % 10));
        assert((n / 10) * 10 + n % 10 == n) by (nonlinear_arith);
        assert(digits_value(d) == n / 10);
        assert(digits_value(r) == n);
    } else {
        let r = decimal(n);
        assert(r.drop_last() =~= Seq::<char>::empty());
        assert(digits_value(r.drop_last()) == 0);
        assert(crate::error::digit_char(n) as int == 48 + n);
        assert(r.last() == crate::error::digit_char(n));
        assert('0' as int == 48);
        assert(digits_value(r) == n);
    }
}

/// A manifest whose default line asks for feature `step` followed by the number `n`
/// declares step `n`: the whole number, however many digits it has.
pub proof fn lemma_declared_step(text: Seq<char>, k: nat, n: nat, rest: Seq<char>)
    requires
        n <= 255,
        first_starting(text_lines(text), "default = ["@, 0) == Some(k),
        text_lines(text)[k as int] == "default = [\""@ + "step"@ + (decimal(n) + rest),
        rest.len() == 0 || !is_digit(rest[0]),
    ensures
        declared_step(text) == Some(n as u8),
{
    reveal_strlit("default = [\"");
    reveal_strlit("step");
    let pre = "default = [\""@;
    let word = "step"@;
    assert(word.len() == 4);
    assert forall|j: int| 0 <= j < word.len() - 1 implies #[trigger] word[j] != word[word.len() - 1] by {}
    lemma_find_from(pre, word, 0);
    assert forall|i: int| 0 <= i < pre.len() implies #[trigger] pre[i] != 's' by {}
    assert forall|i: int| 0 <= i implies !#[trigger] occurs_at(pre, word, i) by {
        if occurs_at(pre, word, i) {
            assert(pre.subrange(i, i + 4)[0] == pre[i]);
        }
    }
    lemma_find_after(pre, word, decimal(n) + rest);
    let line = pre + word + (decimal(n) + rest);
    assert(line.take(pre.len() as int) =~= pre);
    assert(line.skip((pre.len() + word.len()) as int) =~= decimal(n) + rest);
    lemma_decimal_digits(n);
    lemma_digit_run_of(decimal(n), rest);
    assert((decimal(n) + rest).take(decimal(n).len() as int) =~= decimal(n));
    assert(is_digit(decimal(n)[0]));
}

/// The step a manifest declares.
pub fn current_step(text: &str) -> (r: Option<u8>)
    ensures
        r == declared_step(text@),
{
    let chars = chars_of(text);
    let lines = text_lines_of(&chars);
    let prefix = chars_of("default = [");
    match first_line_starting(&lines, &prefix) {
        Some(k) => {
            let line = &lines[k];
            assert(lines_view(lines@)[k as int] == line@);
            let len = line.len();
            let word = chars_of("step");
            proof {
                lemma_find_from(line@, word@, 0);
            }
            match find_at(line, &word, 0) {
                Some(at) => {
                    let from = at + word.len();
                    let n = digit_run_len(line, from);
                    assert(from + n <= len);
                    let digits = slice_of(line, from, from + n);
                    proof {
                        assert(line@.skip(from as int).take(n as int) =~= digits@);
                    }
                    parse_step_number(&digits)
                },
                None => None,
            }
        },
        None => None,
    }
}

/// Numbers of filled blocks and of blocks of step `step`.
pub open spec fn tally_of(blocks: Seq<BlockModel>, step: u8) -> (nat, nat)
    decreases blocks.len(),
{
    if blocks.len() == 0 {
        (0, 0)
    } else {
        let (filled, total) = tally_of(blocks.drop_last(), step);
        if blocks.last().step == step {
            (filled + if block_open(blocks.last().body) { 0nat } else { 1nat }, total + 1)
        } else {
            (filled, total)
        }
    }
}

/// Adds the blocks of a file to the per-step counts of filled and total blocks.
pub fn tally(counts: &mut Vec<(usize, usize)>, blocks: &[Block])
    requires
        old(counts)@.len() == 256,
        forall|s: int| 0 <= s < 256 ==> #[trigger] old(counts)@[s].1 + blocks@.len() <= usize::MAX,
        forall|s: int| 0 <= s < 256 ==> #[trigger] old(counts)@[s].0 <= old(counts)@[s].1,
    ensures
        final(counts)@.len() == 256,
        forall|s: int|
            0 <= s < 256 ==> (#[trigger] final(counts)@[s]).0 == old(counts)@[s].0 + tally_of(blocks_view(blocks@), s as u8).0
                && final(counts)@[s].1 == old(counts)@[s].1 + tally_of(blocks_view(blocks@), s as u8).1,
{
    let ghost start = counts@;
    let ghost all = blocks_view(blocks@);
    let mut k: usize = 0;
    while k < blocks.len()
        invariant
            k <= all.len(),
            all == blocks_view(blocks@),
            counts@.len() == 256,
            forall|s: int| 0 <= s < 256 ==> #[trigger] start[s].1 + all.len() <= usize::MAX,
            forall|s: int| 0 <= s < 256 ==> #[trigger] start[s].0 <= start[s].1,
            forall|s: int|
                0 <= s < 256 ==> (#[trigger] counts@[s]).0 == start[s].0 + tally_of(all.take(k as int), s as u8).0
                    && counts@[s].1 == start[s].1 + tally_of(all.take(k as int), s as u8).1,
            forall|s: int| 0 <= s < 256 ==> #[trigger] tally_of(all.take(k as int), s as u8).1 <= k,
            forall|s: int| 0 <= s < 256 ==> #[trigger] tally_of(all.take(k as int), s as u8).0 <= tally_of(
                all.take(k as int),
                s as u8,
            ).1,
        decreases all.len() - k,
    {
        let b = &blocks[k];
        let s = b.step as usize;
        proof {
            assert(all.take(k + 1).drop_last() =~= all.take(k as int));
            assert(all.take(k + 1).last() == b@);
        }
        let (filled, total) = counts[s];
        let open = is_empty(b);
        let now = if open {
            (filled, total + 1)
        } else {
            (filled + 1, total + 1)
        };
        counts.set(s, now);
        proof {
            assert forall|x: int| 0 <= x < 256 implies (#[trigger] counts@[x]).0 == start[x].0 + tally_of(
                all.take(k + 1),
                x as u8,
            ).0 && counts@[x].1 == start[x].1 + tally_of(all.take(k + 1), x as u8).1 by {
                assert((x as u8 == b.step) == (x == s));
            }
            assert forall|x: int| 0 <= x < 256 implies #[trigger] tally_of(all.take(k + 1), x as u8).1 <= k + 1 by {
                assert(tally_of(all.take(k as int), x as u8).1 <= k);
            }
            assert forall|x: int| 0 <= x < 256 implies #[trigger] tally_of(all.take(k + 1), x as u8).0 <= tally_of(
                all.take(k + 1),
                x as u8,
            ).1 by {
                assert(tally_of(all.take(k as int), x as u8).0 <= tally_of(all.take(k as int), x as u8).1);
            }
        }
        k = k + 1;
    }
    assert(all.take(all.len() as int) =~= all);
}

/// Does the text hold a solution block, that is, is it a reference source?
pub fn is_reference_text(text: &str) -> (r: bool)
    ensures
        r == (find(text@, SOLUTION_BEGIN@) is Some),
{
    let chars = chars_of(text);
    let marker = chars_of(SOLUTION_BEGIN);
    find_at(&chars, &marker, 0).is_some()
}

/// The mark of a step in the status: blank without blocks, `OK` when all are filled,
/// an arrow otherwise.
pub fn status_mark(filled: usize, total: usize) -> (r: &'static str)
    ensures
        r@ == (if total == 0 {
            "  "@
        } else if filled == total {
            "OK"@
        } else {
            "→ "@
        }),
{
    if total == 0 {
        "  "
    } else if filled == total {
        "OK"
    } else {
        "→ "
    }
}

/// The help of the tooling.
pub open spec fn usage_text() -> Seq<char> {
    "Outillage du fil rouge « soufflerie numérique »\n\ncargo xtask status        où en est le projet, étape par étape\ncargo xtask goto <n>      passer à l'étape n (0 à "@
        + decimal(LAST_STEP as nat) + ")\ncargo xtask solve <n>     remplir les trous de l'étape n\ncargo xtask reset <n>     rouvrir les trous de l'étape n\ncargo xtask starter       créer le dossier de travail (par défaut : "@
        + WORKDIR@ + "/)\n\nLes quatre premières commandes s'utilisent depuis le dossier de travail,\n`starter` depuis le dépôt du corrigé.\n"@
}

/// The help of the tooling.
pub fn usage() -> (r: String)
    ensures
        r@ == usage_text(),
{
    let mut s = String::from_str(
        "Outillage du fil rouge « soufflerie numérique »\n\ncargo xtask status        où en est le projet, étape par étape\ncargo xtask goto <n>      passer à l'étape n (0 à ",
    );
    crate::error::push_decimal(&mut s, LAST_STEP as usize);
    s.append(
        ")\ncargo xtask solve <n>     remplir les trous de l'étape n\ncargo xtask reset <n>     rouvrir les trous de l'étape n\ncargo xtask starter       créer le dossier de travail (par défaut : ",
    );
    s.append(WORKDIR);
    s.append(
        "/)\n\nLes quatre premières commandes s'utilisent depuis le dossier de travail,\n`starter` depuis le dépôt du corrigé.\n",
    );
    s
}

/// What reading a step number from the command line gives: the number, or the message
/// saying what is wrong with it.
pub open spec fn step_argument(arg: Option<Seq<char>>) -> Result<u8, Seq<char>> {
    match arg {
        None => Err("il manque le numéro d'étape\n\n"@ + usage_text()),
        Some(raw) => match parse_u8(raw) {
            None => Err("« "@ + raw + " » n'est pas un numéro d'étape"@),
            Some(n) => if n > LAST_STEP {
                Err("l'étape "@ + decimal(n as nat) + " n'existe pas encore (0 à "@ + decimal(LAST_STEP as nat) + ")"@)
            } else {
                Ok(n)
            },
        },
    }
}

/// Reads the step number given on the command line.
pub fn parse_step(arg: Option<&str>) -> (r: Result<u8, String>)
    ensures
        match r {
            Ok(n) => step_argument(
                match arg {
                    Some(a) => Some(a@),
                    None => None,
                },
            ) == Ok::<u8, Seq<char>>(n),
            Err(m) => step_argument(
                match arg {
                    Some(a) => Some(a@),
                    None => None,
                },
            ) == Err::<u8, Seq<char>>(m@),
        },
{
    match arg {
        None => {
            let mut s = String::from_str("il manque le numéro d'étape\n\n");
            let help = usage();
            s.append(help.as_str());
            Err(s)
        },
        Some(raw) => {
            let chars = chars_of(raw);
            match parse_step_number(&chars) {
                None => {
                    let mut s = String::from_str("« ");
                    s.append(raw);
                    s.append(" » n'est pas un numéro d'étape");
                    Err(s)
                },
                Some(n) => {
                    if n > LAST_STEP {
                        let mut s = String::from_str("l'étape ");
                        crate::error::push_decimal(&mut s, n as usize);
                        s.append(" n'existe pas encore (0 à ");
                        crate::error::push_decimal(&mut s, LAST_STEP as usize);
                        s.append(")");
                        Err(s)
                    } else {
                        Ok(n)
                    }
                },
            }
        },
    }
}

} // verus!
