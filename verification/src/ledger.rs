//! The ledger board: a flat character buffer representing two stacked
//! half-ledgers (rendered side by side), the word-placement map, the cursor,
//! and the classification of the cell under the cursor.
//!
//! The buffer is addressed by one linear index; `row = seek / width`,
//! `col = seek % width`.  Rows below `half_height` form the left panel, the
//! rest the right panel.  Words are laid into the flattened buffer and may
//! wrap across row boundaries; two placements always keep an absolute index
//! distance of at least `word_size + 2`.

use vstd::prelude::*;
use vstd::pervasive::VecAdditionalExecFns;
use vstd::set_lib::{lemma_int_range, lemma_len_subset, lemma_len_union, set_int_range};
use crate::game::{
    attempt_transition, eliminable, has_word, removed_word_transition, spec_reset, spec_score,
    AttemptResult, ClickableReward, GameError, GameState,
};
use crate::rng::random_below;

verus! {

/// Screen rows above the board frame.
pub const LEDGER_OFFSET_Y: usize = 5;

/// Default number of rows of one half-ledger.
pub const LEDGER_SIZE: usize = 17;

/// Default width of the board.
pub const LEDGER_WIDTH: usize = 12;

/// The byte the buffer is pre-filled with before generation (`*`).
pub const INIT_FILL: u8 = 42;

/// The neutral byte written over erased words and consumed tokens (`.`).
pub const NEUTRAL_FILL: u8 = 46;

/// Is `b` an ASCII letter?  The puzzle classifies cells as word cells by
/// this test alone.
pub open spec fn is_letter(b: u8) -> bool {
    (65 <= b <= 90) || (97 <= b <= 122)
}

/// Executable ASCII-letter test.
pub fn is_letter_byte(b: u8) -> (r: bool)
    ensures
        r == is_letter(b),
{
    (65 <= b && b <= 90) || (97 <= b && b <= 122)
}

/// Every byte of `w` is an ASCII letter.
pub open spec fn word_is_letters(w: Seq<u8>) -> bool {
    forall|k: int| 0 <= k < w.len() ==> is_letter(#[trigger] w[k])
}

/// Two placement start indices keep the required separation: their absolute
/// difference is at least the word length plus two.
pub open spec fn placement_gap_ok(a: int, b: int, len: int) -> bool {
    (if a > b {
        a - b
    } else {
        b - a
    }) >= len + 2
}

/// The absolute value of the difference between `a` and `b`.
pub fn abs_diff(a: usize, b: usize) -> (r: usize)
    ensures
        r == if a > b { a - b } else { b - a },
{
    if a > b {
        a - b
    } else {
        b - a
    }
}

/// What the cursor rests on: a placed word, a live clickable token, or an
/// inert cell.
#[derive(Clone, Copy, Debug, PartialEq, Eq, Structural)]
pub enum CursorScan {
    OnWord,
    OnClickable,
    OnRegular,
}

/// One line of player feedback.  Rendering these into text is the
/// presentation layer's business.
#[derive(Debug, PartialEq, Eq)]
pub enum LogEvent {
    /// A known candidate was guessed and was not the target.
    PasswordIncorrect(Vec<u8>),
    /// Positions matching the target, out of the session word length.
    AttemptScore(u32, usize),
    /// A clickable token eliminated one wrong candidate.
    RemoveDud,
    /// A clickable token restored the attempt budget.
    ResetAttempts,
    /// Activation on an inert cell holding this byte.
    InvalidToken(u8),
}

pub struct UiState {
    pub ledger: Vec<u8>,
    pub word_placement: Vec<(usize, Vec<u8>)>,
    pub cursor_seek: usize,
    pub word_size: usize,
    pub width: usize,
    pub half_height: usize,
    pub side_log: Vec<LogEvent>,
}

/// `b` differs from `a` at most in its side log.
pub open spec fn same_but_log(a: UiState, b: UiState) -> bool {
    b == (UiState { side_log: b.side_log, ..a })
}

/// `b` differs from `a` at most in its buffer and its placements: the
/// dimensions, the cursor and the log are untouched.
pub open spec fn same_frame(a: UiState, b: UiState) -> bool {
    b == (UiState { ledger: b.ledger, word_placement: b.word_placement, ..a })
}

/// `b` differs from `a` at most in its buffer.
pub open spec fn same_frame_but_ledger(a: UiState, b: UiState) -> bool {
    b == (UiState { ledger: b.ledger, ..a })
}

/// `b` differs from `a` at most in its buffer, its placements and its side
/// log: the dimensions, the word size and the cursor are untouched.
pub open spec fn same_board_config(a: UiState, b: UiState) -> bool {
    b == (UiState { ledger: b.ledger, word_placement: b.word_placement, side_log: b.side_log, ..a })
}

/// `a` with every cell of `[lo, hi)` replaced by the neutral filler.
pub open spec fn dotted_range(a: Seq<u8>, lo: int, hi: int) -> Seq<u8> {
    Seq::new(
        a.len(),
        |c: int|
            if lo <= c < hi {
                NEUTRAL_FILL
            } else {
                a[c]
            },
    )
}

/// What activating a clickable token does when the coin falls on the
/// attempt reset: the session gets its full budget back, the board keeps
/// its placements, the reset is logged, and the clicked cell is consumed.
pub open spec fn clickable_reset_outcome(
    b0: UiState,
    b1: UiState,
    g0: GameState,
    g1: GameState,
) -> bool {
    &&& g1 == spec_reset(g0)
    &&& same_board_config(b0, b1)
    &&& b1.word_placement@ == b0.word_placement@
    &&& b1.side_log@ == b0.side_log@.push(LogEvent::ResetAttempts)
    &&& b1.ledger@ == b0.ledger@.update(b0.cursor_seek as int, NEUTRAL_FILL)
}

/// What activating a clickable token does when the coin falls on the word
/// elimination: some eliminable word moves into the used words, the
/// elimination is logged, the word's cells are erased where the word is on
/// the board, and the clicked cell is consumed.
pub open spec fn clickable_remove_outcome(
    b0: UiState,
    b1: UiState,
    g0: GameState,
    g1: GameState,
) -> bool {
    &&& same_board_config(b0, b1)
    &&& b1.side_log@ == b0.side_log@.push(LogEvent::RemoveDud)
    &&& exists|w: Seq<u8>|
        #[trigger] removed_word_transition(g0, g1, w) && ({
            ||| exists|pi: int|
                0 <= pi < b0.word_placement@.len() && (#[trigger] b0.word_placement@[pi]).1@ == w
                    && b1.word_placement@ == b0.word_placement@.remove(pi) && b1.ledger@
                    == dotted_range(
                    b0.ledger@,
                    b0.word_placement@[pi].0 as int,
                    b0.word_placement@[pi].0 + b0.word_size,
                ).update(b0.cursor_seek as int, NEUTRAL_FILL)
            ||| ((forall|pi: int|
                0 <= pi < b0.word_placement@.len() ==> (#[trigger] b0.word_placement@[pi]).1@ != w)
                && b1.word_placement@ == b0.word_placement@ && b1.ledger@ == b0.ledger@.update(
                b0.cursor_seek as int,
                NEUTRAL_FILL,
            ))
        })
}

/// What one guess of `w` does to the board: nothing but feedback.  An
/// incorrect guess logs the word and its position score; a correct or an
/// invalid one logs nothing here.
pub open spec fn word_attempt_log_outcome(
    b0: UiState,
    b1: UiState,
    g0: GameState,
    w: Seq<u8>,
) -> bool {
    if w != g0.target_word@ && has_word(g0.word_list@, w) && !has_word(g0.used_words@, w) {
        &&& same_board_config(b0, b1)
        &&& b1.word_placement@ == b0.word_placement@
        &&& b1.ledger@ == b0.ledger@
        &&& b1.side_log@.len() == b0.side_log@.len() + 2
        &&& forall|k: int| 0 <= k < b0.side_log@.len() ==> b1.side_log@[k] == b0.side_log@[k]
        &&& b1.side_log@[b0.side_log@.len() as int] is PasswordIncorrect
        &&& b1.side_log@[b0.side_log@.len() as int]->PasswordIncorrect_0@ == w
        &&& b1.side_log@[b0.side_log@.len() as int + 1] == LogEvent::AttemptScore(
            spec_score(w, g0.target_word@, w.len() as int) as u32,
            b0.word_size,
        )
    } else {
        b1 == b0
    }
}

/// What activating an inert cell does: the cell's byte is reported as an
/// invalid token and nothing else moves.
pub open spec fn invalid_token_outcome(b0: UiState, b1: UiState) -> bool {
    &&& same_board_config(b0, b1)
    &&& b1.word_placement@ == b0.word_placement@
    &&& b1.ledger@ == b0.ledger@
    &&& b1.side_log@ == b0.side_log@.push(
        LogEvent::InvalidToken(b0.ledger@[b0.cursor_seek as int]),
    )
}

/// The start indices that a placement starting at `a` blocks: those closer
/// to it than `len + 2`.
pub open spec fn blocked_window(a: int, len: int) -> Set<int> {
    set_int_range(a - len - 1, a + len + 2)
}

/// The start indices blocked by the first `n` placements.
pub open spec fn blocked_windows(pl: Seq<(usize, Vec<u8>)>, n: int, len: int) -> Set<int>
    decreases n,
{
    if n <= 0 {
        Set::empty()
    } else {
        blocked_windows(pl, n - 1, len).union(blocked_window(pl[n - 1].0 as int, len))
    }
}

/// `n` placements block at most `n * (2 * len + 3)` start indices.
proof fn lemma_blocked_windows_len(pl: Seq<(usize, Vec<u8>)>, n: int, len: int)
    requires
        0 <= n <= pl.len(),
        len >= 0,
    ensures
        blocked_windows(pl, n, len).finite(),
        blocked_windows(pl, n, len).len() <= n * (2 * len + 3),
    decreases n,
{
    if n > 0 {
        let a = pl[n - 1].0 as int;
        lemma_blocked_windows_len(pl, n - 1, len);
        lemma_int_range(a - len - 1, a + len + 2);
        lemma_len_union(blocked_windows(pl, n - 1, len), blocked_window(a, len));
        assert((n - 1) * (2 * len + 3) + (2 * len + 3) == n * (2 * len + 3)) by (nonlinear_arith);
    }
}

/// A blocked index lies in the window of one of the placements.
proof fn lemma_blocked_windows_contains(pl: Seq<(usize, Vec<u8>)>, j: int, n: int, len: int, x: int)
    requires
        0 <= j < n <= pl.len(),
        blocked_window(pl[j].0 as int, len).contains(x),
    ensures
        blocked_windows(pl, n, len).contains(x),
    decreases n,
{
    if j < n - 1 {
        lemma_blocked_windows_contains(pl, j, n - 1, len, x);
    }
}

/// An index that the separation check rejects is blocked by some placement.
proof fn lemma_blocked_member(pl: Seq<(usize, Vec<u8>)>, x: int, len: int)
    requires
        len >= 0,
        !spec_placement_ok(pl, x, len),
    ensures
        blocked_windows(pl, pl.len() as int, len).contains(x),
{
    let j = choose|j: int|
        0 <= j < pl.len() && !placement_gap_ok((#[trigger] pl[j]).0 as int, x, len);
    assert(blocked_window(pl[j].0 as int, len).contains(x));
    lemma_blocked_windows_contains(pl, j, pl.len() as int, len, x);
}

/// `idx` keeps the required separation from every accepted start index:
/// their absolute difference is at least `len + 2`.
pub open spec fn spec_placement_ok(pl: Seq<(usize, Vec<u8>)>, idx: int, len: int) -> bool {
    forall|i: int| 0 <= i < pl.len() ==> placement_gap_ok((#[trigger] pl[i]).0 as int, idx, len)
}

/// Rejects a candidate start index that collides with, or lies within
/// `len + 2` cells of, any already accepted start index.
fn placement_ok(pl: &Vec<(usize, Vec<u8>)>, idx: usize, len: usize) -> (r: bool)
    requires
        len + 2 <= usize::MAX,
    ensures
        r == spec_placement_ok(pl@, idx as int, len as int),
{
    let mut i: usize = 0;
    while i < pl.len()
        invariant
            i <= pl@.len(),
            len + 2 <= usize::MAX,
            forall|j: int|
                0 <= j < i ==> placement_gap_ok(
                    (#[trigger] pl@[j]).0 as int,
                    idx as int,
                    len as int,
                ),
        decreases pl@.len() - i,
    {
        if abs_diff(idx, pl[i].0) < len + 2 {
            return false;
        }
        i = i + 1;
    }
    true
}

/// The filler alphabet, by index: the punctuation `(){}[]<>?:;^&$`.  The
/// four opener brackets among these are the clickable candidates.
pub open spec fn spec_filler_char(i: int) -> u8 {
    if i == 0 {
        40
    } else if i == 1 {
        41
    } else if i == 2 {
        123
    } else if i == 3 {
        125
    } else if i == 4 {
        91
    } else if i == 5 {
        93
    } else if i == 6 {
        60
    } else if i == 7 {
        62
    } else if i == 8 {
        63
    } else if i == 9 {
        58
    } else if i == 10 {
        59
    } else if i == 11 {
        94
    } else if i == 12 {
        38
    } else {
        36
    }
}

/// Executable filler lookup; no filler character is a letter.
fn filler_char(i: usize) -> (r: u8)
    requires
        i < 14,
    ensures
        r == spec_filler_char(i as int),
        !is_letter(r),
{
    match i {
        0 => 40,
        1 => 41,
        2 => 123,
        3 => 125,
        4 => 91,
        5 => 93,
        6 => 60,
        7 => 62,
        8 => 63,
        9 => 58,
        10 => 59,
        11 => 94,
        12 => 38,
        _ => 36,
    }
}

impl UiState {
    /// Total number of cells: two half-ledgers of `half_height` rows each.
    pub open spec fn cap(self) -> int {
        self.width * 2 * self.half_height
    }

    /// Dimensions are positive, the buffer has exactly `cap` cells, the
    /// cursor is inside it, and the dimensions are small enough for the
    /// frame arithmetic of the presentation layer.
    pub open spec fn wf_dims(self) -> bool {
        &&& 1 <= self.width
        &&& 1 <= self.half_height
        &&& 1 <= self.word_size
        &&& self.ledger@.len() == self.cap()
        &&& self.cursor_seek < self.ledger@.len()
        &&& self.cap() + self.width <= usize::MAX
        &&& 2 * self.width + 21 <= usize::MAX
        &&& self.half_height + LEDGER_OFFSET_Y <= usize::MAX
    }

    /// Every placement holds a word of the session word length, made of
    /// letters, lying fully inside the buffer; and any two placements keep
    /// an absolute index distance of at least `word_size + 2`.
    pub open spec fn placements_wf(self) -> bool {
        &&& forall|i: int|
            0 <= i < self.word_placement@.len() ==> {
                let p = #[trigger] self.word_placement@[i];
                &&& p.1@.len() == self.word_size
                &&& p.0 + self.word_size <= self.cap()
                &&& word_is_letters(p.1@)
            }
        &&& forall|i: int, j: int|
            0 <= i < j < self.word_placement@.len() ==> placement_gap_ok(
                (#[trigger] self.word_placement@[i]).0 as int,
                (#[trigger] self.word_placement@[j]).0 as int,
                self.word_size as int,
            )
    }

    /// Does cell `c` lie inside some placed word?
    pub open spec fn in_placement(self, c: int) -> bool {
        exists|i: int|
            0 <= i < self.word_placement@.len() && (#[trigger] self.word_placement@[i]).0 <= c
                < self.word_placement@[i].0 + self.word_size
    }

    /// The buffer shows each placed word at its start index, and nothing
    /// outside a placed word is a letter.
    pub open spec fn contents_wf(self) -> bool {
        &&& forall|i: int, k: int|
            0 <= i < self.word_placement@.len() && 0 <= k < self.word_size
                ==> self.ledger@[self.word_placement@[i].0 + k] == #[trigger] self.word_placement@[
                i
            ].1@[k]
        &&& forall|c: int|
            0 <= c < self.cap() && !self.in_placement(c) ==> !is_letter(#[trigger] self.ledger@[c])
    }

    /// Board invariant, established by `new` and preserved by every
    /// mutation.
    pub open spec fn wf(self) -> bool {
        &&& self.wf_dims()
        &&& self.placements_wf()
        &&& self.contents_wf()
    }

    /// A fresh board of `width * 2 * half_height` cells, pre-filled with
    /// `*`, with no placements, the cursor at the origin and an empty log.
    pub fn new(width: usize, half_height: usize, word_size: usize) -> (s: UiState)
        requires
            1 <= width,
            1 <= half_height,
            1 <= word_size,
            width * 2 * half_height + width <= usize::MAX,
            2 * width + 21 <= usize::MAX,
            half_height + LEDGER_OFFSET_Y <= usize::MAX,
        ensures
            s.wf(),
            s.width == width,
            s.half_height == half_height,
            s.word_size == word_size,
            s.cursor_seek == 0,
            s.word_placement@.len() == 0,
            s.side_log@.len() == 0,
            forall|c: int| 0 <= c < s.cap() ==> s.ledger@[c] == INIT_FILL,
    {
        let cap = width * 2 * half_height;
        proof {
            assert(width * 2 * half_height >= 1) by (nonlinear_arith)
                requires
                    width >= 1,
                    half_height >= 1,
            ;
        }
        let mut ledger: Vec<u8> = Vec::new();
        let mut i: usize = 0;
        while i < cap
            invariant
                i <= cap,
                ledger@.len() == i,
                forall|c: int| 0 <= c < i ==> ledger@[c] == INIT_FILL,
            decreases cap - i,
        {
            ledger.push(INIT_FILL);
            i = i + 1;
        }
        UiState {
            ledger,
            word_placement: Vec::new(),
            cursor_seek: 0,
            word_size,
            width,
            half_height,
            side_log: Vec::new(),
        }
    }

    /// Length of one text row of the rendered board: both panels of
    /// `width` cells, the separating space and the newline.
    pub open spec fn row_stride(self) -> int {
        2 * self.width + 2
    }

    /// One text row of the rendered board: the matching left-panel and
    /// right-panel buffer rows side by side, separated by a space and ended
    /// by a newline.
    pub open spec fn spec_row_text(self, r: int) -> Seq<u8> {
        self.ledger@.subrange(r * self.width, r * self.width + self.width) + seq![32u8]
            + self.ledger@.subrange(
            (self.half_height + r) * self.width,
            (self.half_height + r) * self.width + self.width,
        ) + seq![10u8]
    }

    /// The first `n` text rows of the rendered board.
    pub open spec fn spec_rows_text(self, n: int) -> Seq<u8>
        decreases n,
    {
        if n <= 0 {
            Seq::empty()
        } else {
            self.spec_rows_text(n - 1) + self.spec_row_text(n - 1)
        }
    }

    /// The whole board as text, one line per half-ledger row.
    pub open spec fn spec_full_ledger(self) -> Seq<u8> {
        self.spec_rows_text(self.half_height as int)
    }

    /// Renders the board as text: row by row, the left panel's row, a
    /// space, the right panel's row and a newline.
    pub fn get_full_ledger(&self) -> (r: Vec<u8>)
        requires
            self.wf_dims(),
        ensures
            r@ == self.spec_full_ledger(),
            r@.len() == self.half_height * self.row_stride(),
    {
        let mut agg: Vec<u8> = Vec::new();
        let mut row: usize = 0;
        while row < self.half_height
            invariant
                self.wf_dims(),
                row <= self.half_height,
                agg@ == self.spec_rows_text(row as int),
                agg@.len() == row * self.row_stride(),
            decreases self.half_height - row,
        {
            proof {
                assert(row * (self.width as int) + self.width <= self.cap() && (self.half_height
                    + row) * (self.width as int) + self.width <= self.cap() && self.half_height
                    + row <= self.cap()) by (nonlinear_arith)
                    requires
                        0 <= row as int + 1 <= self.half_height,
                        self.width >= 1,
                        self.half_height >= 1,
                        self.cap() == self.width * 2 * self.half_height,
                ;
                assert((row as int + 1) * self.row_stride() == row * self.row_stride()
                    + self.row_stride()) by (nonlinear_arith);
            }
            let ghost rows_pre = self.spec_rows_text(row as int);
            let lbase = row * self.width;
            let mut col: usize = 0;
            while col < self.width
                invariant
                    self.wf_dims(),
                    row < self.half_height,
                    col <= self.width,
                    lbase == row * self.width,
                    lbase + self.width <= self.ledger@.len(),
                    agg@ == rows_pre + self.ledger@.subrange(lbase as int, lbase + col),
                decreases self.width - col,
            {
                agg.push(self.ledger[lbase + col]);
                proof {
                    assert(self.ledger@.subrange(lbase as int, lbase + col + 1)
                        =~= self.ledger@.subrange(lbase as int, lbase + col).push(
                        self.ledger@[lbase + col],
                    ));
                    assert(agg@ =~= rows_pre + self.ledger@.subrange(lbase as int, lbase + col
                        + 1));
                }
                col = col + 1;
            }
            agg.push(32);
            let ghost left_done = rows_pre + self.ledger@.subrange(
                lbase as int,
                lbase + self.width,
            ) + seq![32u8];
            proof {
                assert(agg@ =~= left_done);
            }
            let rbase = (self.half_height + row) * self.width;
            let mut col2: usize = 0;
            while col2 < self.width
                invariant
                    self.wf_dims(),
                    row < self.half_height,
                    col2 <= self.width,
                    rbase == (self.half_height + row) * self.width,
                    rbase + self.width <= self.ledger@.len(),
                    agg@ == left_done + self.ledger@.subrange(rbase as int, rbase + col2),
                decreases self.width - col2,
            {
                agg.push(self.ledger[rbase + col2]);
                proof {
                    assert(self.ledger@.subrange(rbase as int, rbase + col2 + 1)
                        =~= self.ledger@.subrange(rbase as int, rbase + col2).push(
                        self.ledger@[rbase + col2],
                    ));
                    assert(agg@ =~= left_done + self.ledger@.subrange(rbase as int, rbase + col2
                        + 1));
                }
                col2 = col2 + 1;
            }
            agg.push(10);
            proof {
                assert(agg@ =~= self.spec_rows_text(row as int) + self.spec_row_text(row as int));
                assert(agg@ == self.spec_rows_text(row as int + 1));
            }
            row = row + 1;
        }
        agg
    }

    /// Appends one feedback line to the side log.
    pub fn add_log(&mut self, log_statement: LogEvent)
        ensures
            same_but_log(*old(self), *final(self)),
            final(self).side_log@ == old(self).side_log@.push(log_statement),
    {
        self.side_log.push(log_statement);
    }

    /// The byte of the cell under the cursor.
    pub fn get_char_at_cursor(&self) -> (r: u8)
        requires
            self.cursor_seek < self.ledger@.len(),
        ensures
            r == self.ledger@[self.cursor_seek as int],
    {
        return self.ledger[self.cursor_seek];
    }

    /// Moves the cursor one row up; at the top row this is a no-op.
    pub fn mv_cursor_up(&mut self)
        ensures
            *final(self) == (UiState {
                cursor_seek: if old(self).cursor_seek >= old(self).width {
                    (old(self).cursor_seek - old(self).width) as usize
                } else {
                    old(self).cursor_seek
                },
                ..*old(self)
            }),
    {
        let delta = self.cursor_seek.checked_sub(self.width);
        match delta {
            Some(val) => {
                self.cursor_seek = val;
            },
            None => (),
        }
    }

    /// Moves the cursor one row down; when that would leave the buffer it
    /// is a no-op.
    pub fn mv_cursor_down(&mut self)
        requires
            old(self).wf_dims(),
        ensures
            *final(self) == (UiState {
                cursor_seek: if old(self).cursor_seek + old(self).width
                    < old(self).ledger@.len() {
                    (old(self).cursor_seek + old(self).width) as usize
                } else {
                    old(self).cursor_seek
                },
                ..*old(self)
            }),
    {
        let delta = self.cursor_seek + self.width;
        if delta < self.ledger.len() {
            self.cursor_seek = delta;
        }
    }

    /// Moves the cursor one cell left; at index 0 this is a no-op.  A move
    /// from the head of a row silently reaches the tail of the previous
    /// row: horizontal moves are clamped to the buffer, not to the row.
    pub fn mv_cursor_left(&mut self)
        ensures
            *final(self) == (UiState {
                cursor_seek: if old(self).cursor_seek >= 1 {
                    (old(self).cursor_seek - 1) as usize
                } else {
                    old(self).cursor_seek
                },
                ..*old(self)
            }),
    {
        let delta = self.cursor_seek.checked_sub(1);
        match delta {
            Some(val) => {
                self.cursor_seek = val;
            },
            None => (),
        }
    }

    /// Moves the cursor one cell right; at the last cell this is a no-op.
    /// As with `mv_cursor_left`, the move may cross a row boundary.
    pub fn mv_cursor_right(&mut self)
        requires
            old(self).wf_dims(),
        ensures
            *final(self) == (UiState {
                cursor_seek: if old(self).cursor_seek + 1 < old(self).ledger@.len() {
                    (old(self).cursor_seek + 1) as usize
                } else {
                    old(self).cursor_seek
                },
                ..*old(self)
            }),
    {
        let delta = self.cursor_seek + 1;
        if delta < self.ledger.len() {
            self.cursor_seek = delta;
        }
    }

    /// Screen frame of the left panel: `(left, top, right, bottom)`.
    pub fn get_left_ledger_frame(&self) -> (r: (usize, usize, usize, usize))
        requires
            self.wf_dims(),
        ensures
            r.0 == 0,
            r.1 == LEDGER_OFFSET_Y,
            r.2 == self.width,
            r.3 == self.half_height + LEDGER_OFFSET_Y,
    {
        (0, LEDGER_OFFSET_Y, self.width, self.half_height + LEDGER_OFFSET_Y)
    }

    /// Screen frame of the right panel, one column right of the left panel.
    pub fn get_right_ledger_frame(&self) -> (r: (usize, usize, usize, usize))
        requires
            self.wf_dims(),
        ensures
            r.0 == self.width + 1,
            r.1 == LEDGER_OFFSET_Y,
            r.2 == self.width + 1 + self.width,
            r.3 == self.half_height + LEDGER_OFFSET_Y,
    {
        (
            self.width + 1,
            LEDGER_OFFSET_Y,
            self.width + 1 + self.width,
            self.half_height + LEDGER_OFFSET_Y,
        )
    }

    /// Screen frame of the feedback log, to the right of the right panel.
    pub fn get_side_log_frame(&self) -> (r: (usize, usize, usize, usize))
        requires
            self.wf_dims(),
        ensures
            r.0 == self.width + 1 + self.width + 5,
            r.1 == LEDGER_OFFSET_Y,
            r.2 == self.width + 1 + self.width + 20,
            r.3 == self.half_height + LEDGER_OFFSET_Y,
    {
        let rf = self.get_right_ledger_frame();
        (rf.2 + 5, rf.1, rf.2 + 20, rf.3)
    }

    /// Where the cursor sits on screen: column then row.  The cell's linear
    /// index is mapped into the panel it belongs to; a coordinate that does
    /// not fit a screen coordinate collapses to 0.
    pub fn get_cursor_ui_pos(&self) -> (r: (i32, i32))
        requires
            self.wf_dims(),
        ensures
            r.0 == clamp_to_i32(self.spec_cursor_ui_col()),
            r.1 == clamp_to_i32(self.spec_cursor_ui_row()),
    {
        let mut col = self.cursor_seek % self.width;
        let mut row = self.cursor_seek / self.width;

        let offset = if row < self.half_height {
            self.get_left_ledger_frame()
        } else {
            row = row % self.half_height;
            self.get_right_ledger_frame()
        };

        col = offset.0 + col;
        row = offset.1 + row;

        let c = if col <= i32::MAX as usize {
            col as i32
        } else {
            0
        };
        let rr = if row <= i32::MAX as usize {
            row as i32
        } else {
            0
        };
        (c, rr)
    }

    /// Screen column of the cursor before clamping.
    pub open spec fn spec_cursor_ui_col(self) -> int {
        let col = self.cursor_seek as int % self.width as int;
        if (self.cursor_seek as int / self.width as int) < self.half_height {
            col
        } else {
            self.width + 1 + col
        }
    }

    /// Screen row of the cursor before clamping.
    pub open spec fn spec_cursor_ui_row(self) -> int {
        let row = self.cursor_seek as int / self.width as int;
        if row < self.half_height {
            row + LEDGER_OFFSET_Y
        } else {
            (row % self.half_height as int) + LEDGER_OFFSET_Y
        }
    }
}

/// A non-negative value that fits `i32` is kept; a larger one collapses to
/// 0, as the screen cannot show it anyway.
pub open spec fn clamp_to_i32(v: int) -> int {
    if v <= i32::MAX {
        v
    } else {
        0
    }
}

/// Is `b` one of the four opener brackets that can start a clickable token?
pub open spec fn is_opener(b: u8) -> bool {
    b == 40 || b == 91 || b == 123 || b == 60
}

/// Executable opener test (`(`, `[`, `{` or `<`).
pub fn is_opener_byte(b: u8) -> (r: bool)
    ensures
        r == is_opener(b),
{
    b == 40 || b == 91 || b == 123 || b == 60
}

/// The closing bracket matching the opener `b`.
pub open spec fn closer_of(b: u8) -> u8 {
    if b == 40 {
        41
    } else if b == 91 {
        93
    } else if b == 123 {
        125
    } else {
        62
    }
}

/// Executable bracket matching: `(`→`)`, `[`→`]`, `{`→`}`, `<`→`>`.
pub fn closer_byte(b: u8) -> (r: u8)
    requires
        is_opener(b),
    ensures
        r == closer_of(b),
{
    if b == 40 {
        41
    } else if b == 91 {
        93
    } else if b == 123 {
        125
    } else {
        62
    }
}

/// Start of the letter run covering cell `i`: the scan walks left while the
/// previous cell still holds a letter.
pub open spec fn spec_word_start(ledger: Seq<u8>, i: int) -> int
    decreases i,
{
    if i > 0 && is_letter(ledger[i - 1]) {
        spec_word_start(ledger, i - 1)
    } else {
        i
    }
}

/// The first index in `[i, end)` where `ledger` holds the byte `c`.
pub open spec fn spec_find_closer(ledger: Seq<u8>, i: int, end: int, c: u8) -> Option<int>
    decreases end - i,
{
    if i >= end {
        None
    } else if ledger[i] == c {
        Some(i)
    } else {
        spec_find_closer(ledger, i + 1, end, c)
    }
}

/// A run of letters with a non-letter (or the buffer edge) on its left has
/// its own left end as word start, wherever in the run the scan begins.
proof fn lemma_word_start_of_run(ledger: Seq<u8>, s: int, c: int)
    requires
        0 <= s <= c < ledger.len(),
        forall|k: int| s <= k <= c ==> is_letter(#[trigger] ledger[k]),
        s == 0 || !is_letter(ledger[s - 1]),
    ensures
        spec_word_start(ledger, c) == s,
    decreases c - s,
{
    if c > s {
        lemma_word_start_of_run(ledger, s, c - 1);
    }
}

impl UiState {
    /// One past the last cell of the cursor's own row, clamped to the
    /// buffer end: the closer scan never leaves this range.
    pub open spec fn spec_row_end(self) -> int {
        let e = self.cursor_seek + (self.width - self.cursor_seek as int % self.width as int);
        if e <= self.ledger@.len() {
            e
        } else {
            self.ledger@.len() as int
        }
    }

    /// On a well-formed board, a letter cell lies inside exactly the placed
    /// word whose start index the backward scan finds.
    pub proof fn lemma_cursor_word_placement(self, c: int)
        requires
            self.wf(),
            0 <= c < self.cap(),
            is_letter(self.ledger@[c]),
        ensures
            ({
                let s = spec_word_start(self.ledger@, c);
                exists|i: int|
                    0 <= i < self.word_placement@.len() && (#[trigger] self.word_placement@[i]).0
                        == s && s <= c < s + self.word_size && s + self.word_size <= self.cap()
            }),
    {
        assert(self.in_placement(c));
        let i = choose|i: int|
            0 <= i < self.word_placement@.len() && (#[trigger] self.word_placement@[i]).0 <= c
                < self.word_placement@[i].0 + self.word_size;
        let p = self.word_placement@[i];
        let s = p.0 as int;
        // every cell of the placement holds a letter of its word
        assert forall|k: int| s <= k <= c implies is_letter(#[trigger] self.ledger@[k]) by {
            assert(self.ledger@[s + (k - s)] == p.1@[k - s]);
            assert(is_letter(p.1@[k - s]));
        }
        // the cell left of the placement is outside every placement
        if s > 0 {
            assert(!self.in_placement(s - 1)) by {
                if self.in_placement(s - 1) {
                    let j = choose|j: int|
                        0 <= j < self.word_placement@.len() && (#[trigger] self.word_placement@[j]).0
                            <= s - 1 < self.word_placement@[j].0 + self.word_size;
                    if i != j {
                        assert(placement_gap_ok(
                            self.word_placement@[if i < j {
                                i
                            } else {
                                j
                            }].0 as int,
                            self.word_placement@[if i < j {
                                j
                            } else {
                                i
                            }].0 as int,
                            self.word_size as int,
                        ));
                    }
                }
            }
            assert(!is_letter(self.ledger@[s - 1]));
        }
        lemma_word_start_of_run(self.ledger@, s, c);
        assert(self.word_placement@[i].0 == spec_word_start(self.ledger@, c));
    }

    /// Start index of the word under the cursor, found by scanning backward
    /// over letters; `None` when the cursor is not on a letter at all.
    pub fn get_word_at_cursor(&self) -> (r: Option<usize>)
        requires
            self.wf_dims(),
        ensures
            r is Some <==> is_letter(self.ledger@[self.cursor_seek as int]),
            r is Some ==> r->Some_0 == spec_word_start(self.ledger@, self.cursor_seek as int),
    {
        if is_letter_byte(self.ledger[self.cursor_seek]) {
            let mut i = self.cursor_seek;
            while i > 0 && is_letter_byte(self.ledger[i - 1])
                invariant
                    i <= self.cursor_seek,
                    self.cursor_seek < self.ledger@.len(),
                    spec_word_start(self.ledger@, self.cursor_seek as int) == spec_word_start(
                        self.ledger@,
                        i as int,
                    ),
                decreases i,
            {
                i = i - 1;
            }
            return Some(i);
        }
        None
    }

    /// One past the index of the closer matching the opener under the
    /// cursor, searched only to the end of the cursor's own row; `None`
    /// when the cursor is not on an opener or its row holds no closer.
    pub fn get_closing_char_at_cursor(&self) -> (r: Option<usize>)
        requires
            self.wf_dims(),
        ensures
            ({
                let ch = self.ledger@[self.cursor_seek as int];
                let found = spec_find_closer(
                    self.ledger@,
                    self.cursor_seek as int,
                    self.spec_row_end(),
                    closer_of(ch),
                );
                &&& (r is Some <==> (is_opener(ch) && found is Some))
                &&& r is Some ==> r->Some_0 == found->Some_0 + 1
            }),
    {
        let ch = self.get_char_at_cursor();
        if is_opener_byte(ch) {
            let looking_for = closer_byte(ch);
            let end = self.cursor_seek + (self.width - self.cursor_seek % self.width);
            let ghost row_end = self.spec_row_end();
            let mut ith = self.cursor_seek;
            while ith < end && ith < self.ledger.len()
                invariant
                    self.wf_dims(),
                    self.cursor_seek <= ith,
                    end == self.cursor_seek + (self.width - self.cursor_seek as int
                        % self.width as int),
                    row_end == self.spec_row_end(),
                    is_opener(self.ledger@[self.cursor_seek as int]),
                    looking_for == closer_of(self.ledger@[self.cursor_seek as int]),
                    spec_find_closer(
                        self.ledger@,
                        self.cursor_seek as int,
                        row_end,
                        looking_for,
                    ) == spec_find_closer(self.ledger@, ith as int, row_end, looking_for),
                decreases end - ith,
            {
                let char_at = self.ledger[ith];
                if char_at == looking_for {
                    proof {
                        assert(ith < row_end);
                        assert(spec_find_closer(self.ledger@, ith as int, row_end, looking_for)
                            == Some(ith as int));
                    }
                    return Some(ith + 1);
                }
                ith = ith + 1;
            }
            return None;
        }
        None
    }

    /// Fills every cell with a random filler character, then lays each of
    /// `words` (all of the session word length, all letters) at a random
    /// start index drawn uniformly from the indices that keep the required
    /// separation from every word already placed.  When some word has no
    /// admissible index left — the configuration asked for more words than
    /// the buffer can space out — the generation stops with
    /// `PreconditionViolation`; the words placed so far stay on the board.
    /// A placement blocks at most `2 * word_size + 3` start indices, so on a
    /// board whose `n - 1` other words cannot cover every start index the
    /// generation always succeeds, whatever the random source returns.
    pub fn init(&mut self, words: &Vec<Vec<u8>>) -> (r: Result<(), GameError>)
        requires
            old(self).wf(),
            old(self).word_placement@.len() == 0,
            old(self).word_size < old(self).ledger@.len(),
            forall|i: int|
                0 <= i < words@.len() ==> (#[trigger] words@[i])@.len() == old(self).word_size,
            forall|i: int| 0 <= i < words@.len() ==> word_is_letters((#[trigger] words@[i])@),
        ensures
            final(self).wf(),
            same_frame(*old(self), *final(self)),
            final(self).word_placement@.len() <= words@.len(),
            forall|k: int|
                0 <= k < final(self).word_placement@.len()
                    ==> (#[trigger] final(self).word_placement@[k]).1@ == words@[k]@,
            r is Ok <==> final(self).word_placement@.len() == words@.len(),
            r is Err ==> r == Err::<(), GameError>(GameError::PreconditionViolation)
                && old(self).ledger@.len() - old(self).word_size <= (words@.len() - 1) * (2 * old(
            self).word_size + 3),
    {
        let cap = self.ledger.len();
        // random filler
        let mut i: usize = 0;
        while i < cap
            invariant
                i <= cap,
                self.wf_dims(),
                self.ledger@.len() == cap,
                self.word_placement@.len() == 0,
                same_frame(*old(self), *self),
                forall|c: int| 0 <= c < i ==> !is_letter(#[trigger] self.ledger@[c]),
            decreases cap - i,
        {
            let rand_idx = random_below(14);
            let rand_ch = filler_char(rand_idx);
            self.ledger.set(i, rand_ch);
            i = i + 1;
        }
        // place each word at a random admissible index
        let mut wi: usize = 0;
        while wi < words.len()
            invariant
                wi <= words@.len(),
                self.wf(),
                same_frame(*old(self), *self),
                cap == self.ledger@.len(),
                cap == old(self).ledger@.len(),
                self.word_size < self.ledger@.len(),
                self.word_placement@.len() == wi,
                forall|k: int|
                    0 <= k < wi ==> (#[trigger] self.word_placement@[k]).1@ == words@[k]@,
                forall|k: int|
                    0 <= k < words@.len() ==> (#[trigger] words@[k])@.len() == self.word_size,
                forall|k: int| 0 <= k < words@.len() ==> word_is_letters((#[trigger] words@[k])@),
            decreases words@.len() - wi,
        {
            let bound = cap - self.word_size;
            let mut valid: Vec<usize> = Vec::new();
            let mut idx: usize = 0;
            while idx < bound
                invariant
                    idx <= bound,
                    self.word_size + 2 <= usize::MAX,
                    bound + self.word_size == self.ledger@.len(),
                    forall|k: int|
                        0 <= k < valid@.len() ==> spec_placement_ok(
                            self.word_placement@,
                            #[trigger] valid@[k] as int,
                            self.word_size as int,
                        ) && valid@[k] < bound,
                    valid@.len() == 0 ==> forall|x: int|
                        0 <= x < idx ==> !spec_placement_ok(
                            self.word_placement@,
                            x,
                            self.word_size as int,
                        ),
                decreases bound - idx,
            {
                if placement_ok(&self.word_placement, idx, self.word_size) {
                    valid.push(idx);
                }
                idx = idx + 1;
            }
            if valid.len() == 0 {
                proof {
                    let pl = self.word_placement@;
                    let len = self.word_size as int;
                    // every start index is blocked, so the placements'
                    // windows cover all of them — and there are too few
                    // windows for that unless the words outnumber the room
                    assert forall|x: int|
                        set_int_range(0, bound as int).contains(x) implies blocked_windows(
                        pl,
                        pl.len() as int,
                        len,
                    ).contains(x) by {
                        assert(!spec_placement_ok(pl, x, len));
                        lemma_blocked_member(pl, x, len);
                    }
                    lemma_blocked_windows_len(pl, pl.len() as int, len);
                    lemma_int_range(0, bound as int);
                    lemma_len_subset(
                        set_int_range(0, bound as int),
                        blocked_windows(pl, pl.len() as int, len),
                    );
                    assert(bound as int <= wi * (2 * len + 3));
                    assert(wi * (2 * len + 3) <= (words@.len() - 1) * (2 * len + 3))
                        by (nonlinear_arith)
                        requires
                            len >= 0,
                            wi <= words@.len() - 1,
                    ;
                }
                return Err(GameError::PreconditionViolation);
            }
            let pick = random_below(valid.len());
            let index = valid[pick];
            self.place_word(index, &words[wi]);
            wi = wi + 1;
        }
        Ok(())
    }

    /// Writes `word` into the buffer at `index` and records the placement.
    /// The index must keep the required separation from every placement
    /// already on the board.
    fn place_word(&mut self, index: usize, word: &Vec<u8>)
        requires
            old(self).wf(),
            word@.len() == old(self).word_size,
            word_is_letters(word@),
            index + old(self).word_size <= old(self).ledger@.len(),
            spec_placement_ok(
                old(self).word_placement@,
                index as int,
                old(self).word_size as int,
            ),
        ensures
            final(self).wf(),
            same_frame(*old(self), *final(self)),
            final(self).word_placement@.len() == old(self).word_placement@.len() + 1,
            forall|k: int|
                0 <= k < old(self).word_placement@.len()
                    ==> #[trigger] final(self).word_placement@[k] == old(self).word_placement@[k],
            final(self).word_placement@[old(self).word_placement@.len() as int].0 == index,
            final(self).word_placement@[old(self).word_placement@.len() as int].1@ == word@,
    {
        let ghost pl_old = self.word_placement@;
        let ghost led_old = self.ledger@;
        let len = self.word_size;
        let mut k: usize = 0;
        while k < len
            invariant
                k <= len,
                len == self.word_size,
                word@.len() == len,
                index + len <= self.ledger@.len(),
                self.ledger@.len() <= usize::MAX,
                self.ledger@.len() == led_old.len(),
                self.word_placement@ == pl_old,
                same_frame_but_ledger(*old(self), *self),
                forall|c: int|
                    0 <= c < self.ledger@.len() && !(index <= c < index + k)
                        ==> self.ledger@[c] == led_old[c],
                forall|j: int| 0 <= j < k ==> self.ledger@[index + j] == word@[j],
            decreases len - k,
        {
            self.ledger.set(index + k, word[k]);
            k = k + 1;
        }
        self.word_placement.push((index, word.clone()));
        proof {
            let s = *self;
            let olds = *old(self);
            let n = pl_old.len() as int;
            assert(s.word_placement@[n].1@ =~= word@);
            // the new word's cells hold its letters; older placements kept
            // theirs because the separation makes their ranges disjoint
            assert forall|i: int, kk: int|
                0 <= i < s.word_placement@.len() && 0 <= kk < s.word_size implies s.ledger@[(
            s.word_placement@[i]).0 + kk] == #[trigger] s.word_placement@[i].1@[kk] by {
                if i < n {
                    assert(placement_gap_ok(
                        s.word_placement@[i].0 as int,
                        index as int,
                        s.word_size as int,
                    ));
                    assert(s.ledger@[s.word_placement@[i].0 + kk] == led_old[s.word_placement@[
                    i].0 + kk]);
                }
            }
            // cells outside every placement were already outside every old
            // placement and outside the new word, so they kept a non-letter
            assert forall|c: int|
                0 <= c < s.cap() && !s.in_placement(c) implies !is_letter(
                #[trigger] s.ledger@[c],
            ) by {
                assert(!(index <= c < index + s.word_size)) by {
                    assert(s.word_placement@[n].0 <= c < s.word_placement@[n].0 + s.word_size
                        ==> s.in_placement(c));
                }
                assert(!olds.in_placement(c)) by {
                    if olds.in_placement(c) {
                        let j = choose|j: int|
                            0 <= j < pl_old.len() && (#[trigger] pl_old[j]).0 <= c < pl_old[j].0
                                + olds.word_size;
                        assert(s.word_placement@[j].0 <= c < s.word_placement@[j].0
                            + s.word_size);
                        assert(s.in_placement(c));
                    }
                }
                assert(s.ledger@[c] == led_old[c]);
            }
        }
    }

    /// Classifies the cell under the cursor and computes its highlight
    /// range.  A letter cell is part of a placed word and highlights the
    /// whole word; an opener bracket with a matching closer on its own row
    /// highlights the token up to and including the closer; everything
    /// else — including an opener whose row holds no closer — is inert.
    pub fn check_cursor(&self) -> (r: (CursorScan, Option<(usize, usize)>))
        requires
            self.wf(),
        ensures
            ({
                let ch = self.ledger@[self.cursor_seek as int];
                let start = spec_word_start(self.ledger@, self.cursor_seek as int);
                let found = spec_find_closer(
                    self.ledger@,
                    self.cursor_seek as int,
                    self.spec_row_end(),
                    closer_of(ch),
                );
                &&& is_letter(ch) ==> r == (
                    CursorScan::OnWord,
                    Some((start as usize, (start + self.word_size) as usize)),
                ) && start <= self.cursor_seek < start + self.word_size && start + self.word_size
                    <= self.cap()
                &&& is_opener(ch) && found is Some ==> r == (
                    CursorScan::OnClickable,
                    Some((self.cursor_seek, (found->Some_0 + 1) as usize)),
                )
                &&& is_opener(ch) && found is None ==> r == (
                    CursorScan::OnRegular,
                    None::<(usize, usize)>,
                )
                &&& !is_letter(ch) && !is_opener(ch) ==> r == (
                    CursorScan::OnRegular,
                    None::<(usize, usize)>,
                )
            }),
    {
        let idx = self.cursor_seek;
        let ch = self.get_char_at_cursor();
        if is_letter_byte(ch) {
            proof {
                self.lemma_cursor_word_placement(idx as int);
            }
            let word = self.get_word_at_cursor().unwrap();
            (CursorScan::OnWord, Some((word, word + self.word_size)))
        } else if is_opener_byte(ch) {
            let closing = self.get_closing_char_at_cursor();
            match closing {
                Some(end) => (CursorScan::OnClickable, Some((idx, end))),
                None => (CursorScan::OnRegular, None),
            }
        } else {
            (CursorScan::OnRegular, None)
        }
    }

    /// The word placed at start index `idx`, if any.
    fn get_placed_word(&self, idx: usize) -> (r: Option<Vec<u8>>)
        ensures
            (r is Some) <==> exists|i: int|
                0 <= i < self.word_placement@.len() && (#[trigger] self.word_placement@[i]).0
                    == idx,
            r is Some ==> exists|i: int|
                0 <= i < self.word_placement@.len() && (#[trigger] self.word_placement@[i]).0
                    == idx && self.word_placement@[i].1@ == r->Some_0@,
    {
        let mut i: usize = 0;
        while i < self.word_placement.len()
            invariant
                i <= self.word_placement@.len(),
                forall|j: int|
                    0 <= j < i ==> (#[trigger] self.word_placement@[j]).0 != idx,
            decreases self.word_placement@.len() - i,
        {
            if self.word_placement[i].0 == idx {
                let w = self.word_placement[i].1.clone();
                proof {
                    assert(w@ =~= self.word_placement@[i as int].1@);
                }
                return Some(w);
            }
            i = i + 1;
        }
        None
    }

    /// Replaces the clicked cell with the neutral filler so the token
    /// cannot be activated again.
    fn consume_cursor_cell(&mut self)
        requires
            old(self).wf(),
            !is_letter(old(self).ledger@[old(self).cursor_seek as int]),
        ensures
            final(self).wf(),
            *final(self) == (UiState { ledger: final(self).ledger, ..*old(self) }),
            final(self).ledger@ == old(self).ledger@.update(
                old(self).cursor_seek as int,
                NEUTRAL_FILL,
            ),
    {
        let c = self.cursor_seek;
        self.ledger.set(c, NEUTRAL_FILL);
        proof {
            let s = *self;
            let olds = *old(self);
            assert forall|i: int, kk: int|
                0 <= i < s.word_placement@.len() && 0 <= kk < s.word_size implies s.ledger@[(
            s.word_placement@[i]).0 + kk] == #[trigger] s.word_placement@[i].1@[kk] by {
                assert(olds.ledger@[olds.word_placement@[i].0 + kk] == olds.word_placement@[
                i].1@[kk]);
                assert(is_letter(olds.word_placement@[i].1@[kk]));
                assert(olds.word_placement@[i].0 + kk != c);
            }
        }
    }

    /// Erases placement `pi`: its cells become the neutral filler and the
    /// placement is dropped.
    fn erase_placement(&mut self, pi: usize)
        requires
            old(self).wf(),
            pi < old(self).word_placement@.len(),
        ensures
            final(self).wf(),
            same_frame(*old(self), *final(self)),
            final(self).side_log == old(self).side_log,
            final(self).word_placement@ == old(self).word_placement@.remove(pi as int),
            final(self).ledger@ == dotted_range(
                old(self).ledger@,
                old(self).word_placement@[pi as int].0 as int,
                old(self).word_placement@[pi as int].0 + old(self).word_size,
            ),
    {
        let ghost pl_old = self.word_placement@;
        let ghost led_old = self.ledger@;
        let start = self.word_placement[pi].0;
        let _removed = self.word_placement.remove(pi);
        let len = self.word_size;
        let mut k: usize = 0;
        while k < len
            invariant
                k <= len,
                len == self.word_size,
                start + len <= self.ledger@.len(),
                self.ledger@.len() <= usize::MAX,
                self.ledger@.len() == led_old.len(),
                self.word_placement@ == pl_old.remove(pi as int),
                same_frame(*old(self), *self),
                self.side_log == old(self).side_log,
                forall|c: int|
                    0 <= c < self.ledger@.len() && !(start <= c < start + k) ==> self.ledger@[c]
                        == led_old[c],
                forall|t: int| start <= t < start + k ==> #[trigger] self.ledger@[t] == NEUTRAL_FILL,
            decreases len - k,
        {
            self.ledger.set(start + k, NEUTRAL_FILL);
            k = k + 1;
        }
        proof {
            let s = *self;
            let olds = *old(self);
            pl_old.remove_ensures(pi as int);
            assert(s.ledger@ =~= dotted_range(led_old, start as int, start + len));
            // pairwise separation survives dropping one placement
            assert forall|i: int, j: int|
                0 <= i < j < s.word_placement@.len() implies placement_gap_ok(
                (#[trigger] s.word_placement@[i]).0 as int,
                (#[trigger] s.word_placement@[j]).0 as int,
                s.word_size as int,
            ) by {
                let io: int = if i < pi { i } else { i + 1 };
                let jo: int = if j < pi { j } else { j + 1 };
                assert(s.word_placement@[i] == pl_old[io]);
                assert(s.word_placement@[j] == pl_old[jo]);
                assert(placement_gap_ok(
                    pl_old[io].0 as int,
                    pl_old[jo].0 as int,
                    s.word_size as int,
                ));
            }
            // the other placements kept their cells: the erased range is
            // disjoint from each of them
            assert forall|i: int, kk: int|
                0 <= i < s.word_placement@.len() && 0 <= kk < s.word_size implies s.ledger@[(
            s.word_placement@[i]).0 + kk] == #[trigger] s.word_placement@[i].1@[kk] by {
                let io: int = if i < pi { i } else { i + 1 };
                assert(s.word_placement@[i] == pl_old[io]);
                assert(io != pi);
                if io < pi {
                    assert(placement_gap_ok(
                        pl_old[io].0 as int,
                        pl_old[pi as int].0 as int,
                        s.word_size as int,
                    ));
                } else {
                    assert(placement_gap_ok(
                        pl_old[pi as int].0 as int,
                        pl_old[io].0 as int,
                        s.word_size as int,
                    ));
                }
                assert(!(start <= pl_old[io].0 + kk < start + len));
                assert(s.ledger@[pl_old[io].0 + kk] == led_old[pl_old[io].0 + kk]);
            }
            // a cell outside every remaining placement is no letter: erased
            // cells hold the neutral filler, the rest were already covered
            assert forall|c: int|
                0 <= c < s.cap() && !s.in_placement(c) implies !is_letter(
                #[trigger] s.ledger@[c],
            ) by {
                if start <= c < start + len {
                    assert(s.ledger@[c] == NEUTRAL_FILL);
                } else {
                    assert(s.ledger@[c] == led_old[c]);
                    assert(!olds.in_placement(c)) by {
                        if olds.in_placement(c) {
                            let j = choose|j: int|
                                0 <= j < pl_old.len() && (#[trigger] pl_old[j]).0 <= c < pl_old[
                                j].0 + olds.word_size;
                            assert(j != pi);
                            let jn: int = if j < pi { j } else { j - 1 };
                            assert(s.word_placement@[jn] == pl_old[j]);
                            assert(s.in_placement(c));
                        }
                    }
                }
            }
        }
    }

    /// Activates the word under the cursor: the word is guessed, and an
    /// incorrect guess is reported together with its position score.
    pub fn handle_enter_on_word(&mut self, game_state: &mut GameState, _idx: usize, word: Vec<u8>)
        requires
            old(game_state).wf(),
            word@.len() == old(game_state).target_word@.len(),
        ensures
            final(game_state).wf(),
            attempt_transition(*old(game_state), *final(game_state), word@),
            word_attempt_log_outcome(*old(self), *final(self), *old(game_state), word@),
    {
        let attempt_word = word.clone();
        proof {
            assert(attempt_word@ =~= word@);
        }
        let try_attempt = game_state.do_try(word);
        match try_attempt {
            AttemptResult::Incorrect => {
                self.add_log(LogEvent::PasswordIncorrect(attempt_word.clone()));
                let score = match game_state.get_attempt_score(&attempt_word) {
                    Ok(s) => s,
                    Err(_) => {
                        proof {
                            assert(false);
                        }
                        0
                    },
                };
                self.add_log(LogEvent::AttemptScore(score, self.word_size));
            },
            _ => (),
        }
    }

    /// Activates the clickable token under the cursor: a coin flip grants
    /// either a full attempt reset or the elimination of one wrong
    /// candidate, whose cells are then erased from the board; either way
    /// the clicked cell is consumed.  When an elimination is drawn with no
    /// eliminable word left, the state stays untouched and `EmptyChoice` is
    /// reported.
    pub fn handle_enter_on_clickable(
        &mut self,
        game_state: &mut GameState,
        _range: (usize, usize),
    ) -> (r: Result<(), GameError>)
        requires
            old(self).wf(),
            old(game_state).wf(),
            !is_letter(old(self).ledger@[old(self).cursor_seek as int]),
        ensures
            final(self).wf(),
            final(game_state).wf(),
            r is Err ==> r == Err::<(), GameError>(GameError::EmptyChoice) && *final(self) == *old(
                self,
            ) && *final(game_state) == *old(game_state) && !(exists|w: Seq<u8>|
                eliminable(*old(game_state), w)),
            r is Ok ==> clickable_reset_outcome(
                *old(self),
                *final(self),
                *old(game_state),
                *final(game_state),
            ) || clickable_remove_outcome(
                *old(self),
                *final(self),
                *old(game_state),
                *final(game_state),
            ),
    {
        let reward = GameState::random_clickable_reward();
        match reward {
            ClickableReward::RemoveWord => {
                let to_remove = match game_state.remove_choice() {
                    Ok(w) => w,
                    Err(e) => {
                        return Err(e);
                    },
                };
                self.add_log(LogEvent::RemoveDud);
                let mut to_remove_key: Option<usize> = None;
                let mut i: usize = 0;
                while i < self.word_placement.len()
                    invariant
                        i <= self.word_placement@.len(),
                        match to_remove_key {
                            Some(key) => key < i && self.word_placement@[key as int].1@
                                == to_remove@,
                            None => forall|j: int|
                                0 <= j < i ==> (#[trigger] self.word_placement@[j]).1@
                                    != to_remove@,
                        },
                    decreases self.word_placement@.len() - i,
                {
                    if self.word_placement[i].1 == to_remove {
                        proof {
                            assert(self.word_placement@[i as int].1@ =~= to_remove@);
                        }
                        to_remove_key = Some(i);
                    }
                    i = i + 1;
                }
                match to_remove_key {
                    Some(key) => {
                        self.erase_placement(key);
                    },
                    None => (),
                }
                self.consume_cursor_cell();
                Ok(())
            },
            ClickableReward::ResetAttempts => {
                game_state.reset_attempts();
                self.add_log(LogEvent::ResetAttempts);
                self.consume_cursor_cell();
                Ok(())
            },
        }
    }

    /// Activates the cell under the cursor.  A word cell feeds the placed
    /// word to the guessing machine; a live clickable token resolves its
    /// random reward; an inert cell only reports an invalid token.
    pub fn handle_enter(&mut self, game_state: &mut GameState) -> (r: Result<(), GameError>)
        requires
            old(self).wf(),
            old(game_state).wf(),
            old(game_state).target_word@.len() == old(self).word_size,
        ensures
            final(self).wf(),
            final(game_state).wf(),
            ({
                let ch = old(self).ledger@[old(self).cursor_seek as int];
                let start = spec_word_start(old(self).ledger@, old(self).cursor_seek as int);
                let found = spec_find_closer(
                    old(self).ledger@,
                    old(self).cursor_seek as int,
                    old(self).spec_row_end(),
                    closer_of(ch),
                );
                &&& is_letter(ch) ==> r is Ok && exists|i: int|
                    0 <= i < old(self).word_placement@.len() && (#[trigger] old(
                        self,
                    ).word_placement@[i]).0 == start && attempt_transition(
                        *old(game_state),
                        *final(game_state),
                        old(self).word_placement@[i].1@,
                    ) && word_attempt_log_outcome(
                        *old(self),
                        *final(self),
                        *old(game_state),
                        old(self).word_placement@[i].1@,
                    )
                &&& is_opener(ch) && found is Some ==> (r is Err ==> r == Err::<(), GameError>(
                    GameError::EmptyChoice,
                ) && *final(self) == *old(self) && *final(game_state) == *old(game_state) && !(
                exists|w: Seq<u8>| eliminable(*old(game_state), w))) && (
                r is Ok ==> clickable_reset_outcome(
                    *old(self),
                    *final(self),
                    *old(game_state),
                    *final(game_state),
                ) || clickable_remove_outcome(
                    *old(self),
                    *final(self),
                    *old(game_state),
                    *final(game_state),
                ))
                &&& is_opener(ch) && found is None ==> r is Ok && *final(game_state) == *old(
                    game_state,
                ) && invalid_token_outcome(*old(self), *final(self))
                &&& !is_letter(ch) && !is_opener(ch) ==> r is Ok && *final(game_state) == *old(
                    game_state,
                ) && invalid_token_outcome(*old(self), *final(self))
            }),
    {
        let scan = self.check_cursor();
        match scan.0 {
            CursorScan::OnWord => {
                let word = self.get_word_at_cursor();
                match word {
                    Some(beg) => {
                        proof {
                            self.lemma_cursor_word_placement(self.cursor_seek as int);
                        }
                        let at_word = match self.get_placed_word(beg) {
                            Some(w) => w,
                            None => {
                                proof {
                                    assert(false);
                                }
                                Vec::new()
                            },
                        };
                        self.handle_enter_on_word(game_state, beg, at_word);
                        proof {
                            lemma_wf_same_board(*old(self), *self);
                        }
                        Ok(())
                    },
                    None => {
                        proof {
                            assert(false);
                        }
                        Ok(())
                    },
                }
            },
            CursorScan::OnClickable => {
                let closing = self.get_closing_char_at_cursor();
                match closing {
                    Some(end) => {
                        let range = (self.cursor_seek, end);
                        self.handle_enter_on_clickable(game_state, range)
                    },
                    None => {
                        self.add_log(LogEvent::InvalidToken(self.get_char_at_cursor()));
                        proof {
                            lemma_wf_same_board(*old(self), *self);
                        }
                        Ok(())
                    },
                }
            },
            CursorScan::OnRegular => {
                self.add_log(LogEvent::InvalidToken(self.get_char_at_cursor()));
                proof {
                    lemma_wf_same_board(*old(self), *self);
                }
                Ok(())
            },
        }
    }
}

/// A board that keeps its buffer, placements, cursor and dimensions stays
/// well-formed whatever happens to its side log.
proof fn lemma_wf_same_board(b0: UiState, b1: UiState)
    requires
        b0.wf(),
        b1.word_placement@ == b0.word_placement@,
        b1.ledger@ == b0.ledger@,
        b1.cursor_seek == b0.cursor_seek,
        b1.width == b0.width,
        b1.half_height == b0.half_height,
        b1.word_size == b0.word_size,
    ensures
        b1.wf(),
{
    assert forall|c: int| 0 <= c < b1.cap() && !b1.in_placement(c) implies !is_letter(
        #[trigger] b1.ledger@[c],
    ) by {
        assert(!b0.in_placement(c)) by {
            if b0.in_placement(c) {
                let i = choose|i: int|
                    0 <= i < b0.word_placement@.len() && (#[trigger] b0.word_placement@[i]).0 <= c
                        < b0.word_placement@[i].0 + b0.word_size;
                assert(b1.word_placement@[i].0 <= c < b1.word_placement@[i].0 + b1.word_size);
                assert(b1.in_placement(c));
            }
        }
    }
}

/// Law: on a well-formed board no two placed words sit closer than the
/// session word length plus two cells, measured between start indices in
/// the flattened buffer; in particular their cell ranges never overlap.
pub proof fn lemma_placements_separated(b: UiState, i: int, j: int)
    requires
        b.wf(),
        0 <= i < b.word_placement@.len(),
        0 <= j < b.word_placement@.len(),
        i != j,
    ensures
        placement_gap_ok(
            b.word_placement@[i].0 as int,
            b.word_placement@[j].0 as int,
            b.word_size as int,
        ),
        b.word_placement@[i].0 + b.word_size <= b.word_placement@[j].0 || b.word_placement@[j].0
            + b.word_size <= b.word_placement@[i].0,
{
    if i < j {
        assert(placement_gap_ok(
            b.word_placement@[i].0 as int,
            b.word_placement@[j].0 as int,
            b.word_size as int,
        ));
    } else {
        assert(placement_gap_ok(
            b.word_placement@[j].0 as int,
            b.word_placement@[i].0 as int,
            b.word_size as int,
        ));
    }
}

} // verus!
