//! Word-box reconstruction: which units of a recognised line get a box.
use vstd::prelude::*;

use crate::ctc::{concat_words, WordGroups, WordType};

verus! {

/// Reconstructs per-word boxes of recognised lines inside their detection
/// boxes. It holds no state.
#[derive(Debug, Clone, Copy, PartialEq, Eq, Structural)]
pub struct CalRecBoxes;

impl CalRecBoxes {
    pub fn new() -> (r: Self)
        ensures
            r == CalRecBoxes,
    {
        CalRecBoxes
    }
}

/// Every word is alphanumeric.
pub open spec fn all_en_num(types: Seq<WordType>) -> bool {
    forall|i: int| 0 <= i < types.len() ==> types[i] == WordType::EnNum
}

/// The column lists one after the other.
pub open spec fn concat_cols(cs: Seq<Seq<usize>>) -> Seq<usize>
    decreases cs.len(),
{
    if cs.len() == 0 {
        Seq::empty()
    } else {
        concat_cols(cs.drop_last()) + cs.last()
    }
}

/// Each character as a one-character text.
pub open spec fn singletons(cs: Seq<char>) -> Seq<Seq<char>> {
    cs.map_values(|c: char| seq![c])
}

/// The units that get a box on a line, as `word_box_units` gives them.
pub struct BoxUnits {
    /// One box per word (else one per column).
    pub merged: bool,
    /// The text of each unit.
    pub contents: Vec<Vec<char>>,
    /// The columns of each word, when merged.
    pub line_cols: Vec<Vec<usize>>,
    /// Every column of the line, when not merged.
    pub flat_cols: Vec<usize>,
}

pub open spec fn min_nat(a: nat, b: nat) -> nat {
    if a <= b {
        a
    } else {
        b
    }
}

/// Decides how the words of a line become boxes. When every word is
/// alphanumeric and single-character boxes are not asked for, each word is
/// one unit over its columns; otherwise every character is a unit and every
/// column gets a box. Words and column lists are taken in pairs, as far as
/// both go.
pub fn word_box_units(groups: &WordGroups, return_single_char_box: bool) -> (r: BoxUnits)
    ensures
        r.merged == (all_en_num(groups.word_types@) && !return_single_char_box),
        ({
            let n = min_nat(groups.words@.len(), groups.word_cols@.len()) as int;
            let ws = groups.words_view().take(n);
            let cs = groups.cols_view().take(n);
            let contents = r.contents@.map_values(|w: Vec<char>| w@);
            let line_cols = r.line_cols@.map_values(|c: Vec<usize>| c@);
            if r.merged {
                &&& contents == ws
                &&& line_cols == cs
                &&& r.flat_cols@.len() == 0
            } else {
                &&& contents == singletons(concat_words(ws))
                &&& line_cols.len() == 0
                &&& r.flat_cols@ == concat_cols(cs)
            }
        }),
{
    let mut all: bool = true;
    let mut t: usize = 0;
    while t < groups.word_types.len()
        invariant
            t <= groups.word_types@.len(),
            all == (forall|i: int| 0 <= i < t ==> groups.word_types@[i] == WordType::EnNum),
        decreases groups.word_types@.len() - t,
    {
        if groups.word_types[t] != WordType::EnNum {
            all = false;
        }
        t = t + 1;
    }
    let merged = all && !return_single_char_box;
    let n = if groups.words.len() <= groups.word_cols.len() {
        groups.words.len()
    } else {
        groups.word_cols.len()
    };
    let ghost ws_all = groups.words_view();
    let ghost cs_all = groups.cols_view();
    let mut contents: Vec<Vec<char>> = Vec::new();
    let mut line_cols: Vec<Vec<usize>> = Vec::new();
    let mut flat_cols: Vec<usize> = Vec::new();
    let mut k: usize = 0;
    while k < n
        invariant
            n <= groups.words@.len(),
            n <= groups.word_cols@.len(),
            ws_all == groups.words_view(),
            cs_all == groups.cols_view(),
            k <= n,
            merged ==> contents@.map_values(|w: Vec<char>| w@) == ws_all.take(k as int),
            merged ==> line_cols@.map_values(|c: Vec<usize>| c@) == cs_all.take(k as int),
            merged ==> flat_cols@.len() == 0,
            !merged ==> contents@.map_values(|w: Vec<char>| w@) == singletons(
                concat_words(ws_all.take(k as int)),
            ),
            !merged ==> line_cols@.len() == 0,
            !merged ==> flat_cols@ == concat_cols(cs_all.take(k as int)),
        decreases n - k,
    {
        let word = &groups.words[k];
        let cols = &groups.word_cols[k];
        let ghost before_contents = contents@.map_values(|w: Vec<char>| w@);
        let ghost before_flat = flat_cols@;
        assert(ws_all.take(k + 1).drop_last() =~= ws_all.take(k as int));
        assert(cs_all.take(k + 1).drop_last() =~= cs_all.take(k as int));
        assert(ws_all.take(k + 1).last() == word@);
        assert(cs_all.take(k + 1).last() == cols@);
        if merged {
            let ghost before_lines = line_cols@.map_values(|c: Vec<usize>| c@);
            contents.push(copy_chars(word));
            line_cols.push(copy_cols(cols));
            assert(contents@.map_values(|w: Vec<char>| w@) =~= before_contents.push(word@));
            assert(line_cols@.map_values(|c: Vec<usize>| c@) =~= before_lines.push(cols@));
            assert(ws_all.take(k + 1) =~= ws_all.take(k as int).push(word@));
            assert(cs_all.take(k + 1) =~= cs_all.take(k as int).push(cols@));
        } else {
            let mut j: usize = 0;
            while j < word.len()
                invariant
                    j <= word@.len(),
                    contents@.map_values(|w: Vec<char>| w@) == before_contents + singletons(
                        word@.take(j as int),
                    ),
                decreases word@.len() - j,
            {
                let ghost b = contents@.map_values(|w: Vec<char>| w@);
                let mut one: Vec<char> = Vec::new();
                one.push(word[j]);
                contents.push(one);
                assert(contents@.map_values(|w: Vec<char>| w@) =~= b.push(seq![word@[j as int]]));
                assert(singletons(word@.take(j + 1)) =~= singletons(word@.take(j as int)).push(
                    seq![word@[j as int]],
                ));
                j = j + 1;
            }
            assert(word@.take(word@.len() as int) =~= word@);
            assert(singletons(concat_words(ws_all.take(k as int)) + word@) =~= singletons(
                concat_words(ws_all.take(k as int)),
            ) + singletons(word@));
            let mut j: usize = 0;
            while j < cols.len()
                invariant
                    j <= cols@.len(),
                    flat_cols@ == before_flat + cols@.take(j as int),
                decreases cols@.len() - j,
            {
                flat_cols.push(cols[j]);
                assert(flat_cols@ =~= before_flat + cols@.take(j + 1));
                j = j + 1;
            }
            assert(cols@.take(cols@.len() as int) =~= cols@);
        }
        k = k + 1;
    }
    assert(ws_all.take(n as int) =~= groups.words_view().take(n as int));
    BoxUnits { merged, contents, line_cols, flat_cols }
}

fn copy_chars(v: &Vec<char>) -> (r: Vec<char>)
    ensures
        r@ == v@,
{
    let mut out: Vec<char> = Vec::new();
    let mut j: usize = 0;
    while j < v.len()
        invariant
            j <= v@.len(),
            out@ == v@.take(j as int),
        decreases v@.len() - j,
    {
        out.push(v[j]);
        assert(out@ =~= v@.take(j + 1));
        j = j + 1;
    }
    assert(v@.take(v@.len() as int) =~= v@);
    out
}

fn copy_cols(v: &Vec<usize>) -> (r: Vec<usize>)
    ensures
        r@ == v@,
{
    let mut out: Vec<usize> = Vec::new();
    let mut j: usize = 0;
    while j < v.len()
        invariant
            j <= v@.len(),
            out@ == v@.take(j as int),
        decreases v@.len() - j,
    {
        out.push(v[j]);
        assert(out@ =~= v@.take(j + 1));
        j = j + 1;
    }
    assert(v@.take(v@.len() as int) =~= v@);
    out
}

} // verus!
