//! The integer side of CTC decoding: which time steps of a recognised line
//! give a character, and how the characters group into words with the time
//! steps (columns) that produced them.
use vstd::prelude::*;

verus! {

/// Token index of the CTC blank.
pub const BLANK: usize = 0;

/// A step is kept when its token is not the blank and differs from the token
/// of the step before it.
pub open spec fn kept_step(tokens: Seq<usize>, i: int) -> bool {
    tokens[i] != BLANK && (i == 0 || tokens[i] != tokens[i - 1])
}

/// For each time step of a greedy CTC decode, whether it yields a character:
/// repeats of the previous step's token collapse, and blanks are dropped.
pub fn ctc_selection(token_indices: &Vec<usize>) -> (r: Vec<bool>)
    ensures
        r@.len() == token_indices@.len(),
        forall|i: int| 0 <= i < r@.len() ==> r@[i] == #[trigger] kept_step(token_indices@, i),
{
    let n = token_indices.len();
    let mut selection: Vec<bool> = Vec::new();
    let mut i: usize = 0;
    while i < n
        invariant
            n == token_indices@.len(),
            i <= n,
            selection@.len() == i,
            forall|j: int| 0 <= j < i ==> selection@[j] == #[trigger] kept_step(token_indices@, j),
        decreases n - i,
    {
        let keep = token_indices[i] != BLANK && (i == 0 || token_indices[i] != token_indices[i - 1]);
        selection.push(keep);
        i = i + 1;
    }
    selection
}

/// A character of the CJK Unified Ideographs block, U+4E00 to U+9FFF.
pub open spec fn is_cjk(c: char) -> bool {
    0x4e00 <= (c as u32) <= 0x9fff
}

/// Whether `text` holds a CJK unified ideograph (U+4E00 to U+9FFF).
pub fn has_chinese_char(text: &Vec<char>) -> (r: bool)
    ensures
        r <==> exists|i: int| 0 <= i < text@.len() && is_cjk(#[trigger] text@[i]),
{
    let mut i: usize = 0;
    while i < text.len()
        invariant
            i <= text@.len(),
            forall|j: int| 0 <= j < i ==> !is_cjk(#[trigger] text@[j]),
        decreases text@.len() - i,
    {
        let c = text[i] as u32;
        if 0x4e00 <= c && c <= 0x9fff {
            return true;
        }
        i = i + 1;
    }
    false
}

/// Script class of a word: CJK ideographs, or anything else (letters and
/// digits).
#[derive(Clone, Copy, Debug, PartialEq, Eq, Structural)]
pub enum WordType {
    Cn,
    EnNum,
}

pub open spec fn type_of(c: char) -> WordType {
    if is_cjk(c) {
        WordType::Cn
    } else {
        WordType::EnNum
    }
}

/// The positions `i < k` with `sel[i]` set, in increasing order.
pub open spec fn valid_upto(sel: Seq<bool>, k: int) -> Seq<usize>
    decreases k,
{
    if k <= 0 {
        Seq::empty()
    } else {
        let prev = valid_upto(sel, k - 1);
        if sel[k - 1] {
            prev.push((k - 1) as usize)
        } else {
            prev
        }
    }
}

/// The selected columns of a line.
pub open spec fn valid_cols(sel: Seq<bool>) -> Seq<usize> {
    valid_upto(sel, sel.len() as int)
}

/// Column gap before character `i`: the distance to the previous selected
/// column; for the first, 3 for a CJK first character and 2 otherwise,
/// capped by its column.
pub open spec fn col_width(text: Seq<char>, vc: Seq<usize>, i: int) -> int {
    if i == 0 {
        let first_width: int = if text.len() > 0 && is_cjk(text[0]) {
            3
        } else {
            2
        };
        if first_width <= vc[0] {
            first_width
        } else {
            vc[0] as int
        }
    } else {
        vc[i] - vc[i - 1]
    }
}

/// Columns further apart than this start a new word.
pub const MAX_COL_GAP: usize = 5;

/// State of the word scan: the words finished so far with their columns and
/// types, the word being built with its columns, and the current type.
pub struct WordScan {
    pub words: Seq<Seq<char>>,
    pub cols: Seq<Seq<usize>>,
    pub types: Seq<WordType>,
    pub word: Seq<char>,
    pub wcols: Seq<usize>,
    pub state: Option<WordType>,
}

/// Closes the word being built, if it has a character.
pub open spec fn flush(st: WordScan) -> WordScan {
    if st.word.len() > 0 {
        WordScan {
            words: st.words.push(st.word),
            cols: st.cols.push(st.wcols),
            types: if st.state.is_some() {
                st.types.push(st.state.unwrap())
            } else {
                st.types
            },
            word: Seq::empty(),
            wcols: Seq::empty(),
            state: st.state,
        }
    } else {
        st
    }
}

/// Takes character `i` of the line: a space closes the current word; a
/// character of another type than the current word's, or one whose column
/// gap exceeds `MAX_COL_GAP`, starts a new word; the character joins the
/// current word with its column.
pub open spec fn scan_step(
    text: Seq<char>,
    space: Seq<bool>,
    vc: Seq<usize>,
    st: WordScan,
    i: int,
) -> WordScan {
    let ch = text[i];
    if space[i] {
        flush(st)
    } else {
        let cs = type_of(ch);
        let st1 = if st.state.is_none() {
            WordScan { state: Some(cs), ..st }
        } else {
            st
        };
        let brk = st1.state != Some(cs) || (i < vc.len() && col_width(text, vc, i) > MAX_COL_GAP);
        let st2 = if brk {
            WordScan { state: Some(cs), ..flush(st1) }
        } else {
            st1
        };
        WordScan {
            word: st2.word.push(ch),
            wcols: if i < vc.len() {
                st2.wcols.push(vc[i])
            } else {
                st2.wcols
            },
            ..st2
        }
    }
}

pub open spec fn empty_scan() -> WordScan {
    WordScan {
        words: Seq::empty(),
        cols: Seq::empty(),
        types: Seq::empty(),
        word: Seq::empty(),
        wcols: Seq::empty(),
        state: None,
    }
}

/// The scan after the first `k` characters.
pub open spec fn scan_upto(text: Seq<char>, space: Seq<bool>, vc: Seq<usize>, k: int) -> WordScan
    decreases k,
{
    if k <= 0 {
        empty_scan()
    } else {
        scan_step(text, space, vc, scan_upto(text, space, vc, k - 1), k - 1)
    }
}

/// The words of a line, the selected columns of each, and the type of each.
#[derive(Debug, Clone)]
pub struct WordGroups {
    pub words: Vec<Vec<char>>,
    pub word_cols: Vec<Vec<usize>>,
    pub word_types: Vec<WordType>,
}

impl WordGroups {
    pub open spec fn words_view(&self) -> Seq<Seq<char>> {
        self.words@.map_values(|w: Vec<char>| w@)
    }

    pub open spec fn cols_view(&self) -> Seq<Seq<usize>> {
        self.word_cols@.map_values(|w: Vec<usize>| w@)
    }
}

/// The word grouping of a line: nothing when no column is selected; else
/// the scan over every character, with the last word closed.
pub open spec fn word_groups(text: Seq<char>, space: Seq<bool>, sel: Seq<bool>) -> WordScan {
    let vc = valid_cols(sel);
    if vc.len() == 0 {
        empty_scan()
    } else {
        flush(scan_upto(text, space, vc, text.len() as int))
    }
}

/// The columns `i` with `selection[i]` set, in increasing order.
pub fn valid_columns(selection: &Vec<bool>) -> (r: Vec<usize>)
    ensures
        r@ == valid_cols(selection@),
{
    let mut vc: Vec<usize> = Vec::new();
    let mut i: usize = 0;
    while i < selection.len()
        invariant
            i <= selection@.len(),
            vc@ == valid_upto(selection@, i as int),
        decreases selection@.len() - i,
    {
        if selection[i] {
            vc.push(i);
        }
        i = i + 1;
    }
    vc
}

proof fn lemma_valid_upto_increasing(sel: Seq<bool>, k: int)
    requires
        0 <= k <= sel.len(),
        sel.len() <= usize::MAX,
    ensures
        forall|a: int, b: int|
            0 <= a < b < valid_upto(sel, k).len() ==> valid_upto(sel, k)[a] < valid_upto(sel, k)[b],
        forall|a: int| 0 <= a < valid_upto(sel, k).len() ==> valid_upto(sel, k)[a] < k,
        valid_upto(sel, k).len() <= k,
    decreases k,
{
    if k > 0 {
        lemma_valid_upto_increasing(sel, k - 1);
        let prev = valid_upto(sel, k - 1);
        let cur = valid_upto(sel, k);
        if sel[k - 1] {
            assert(cur == prev.push((k - 1) as usize));
        } else {
            assert(cur == prev);
        }
        assert forall|a: int, b: int| 0 <= a < b < cur.len() implies cur[a] < cur[b] by {
            if b < prev.len() {
                assert(cur[a] == prev[a] && cur[b] == prev[b]);
            } else {
                assert(cur[a] == prev[a]);
                assert(prev[a] < k - 1);
            }
        }
        assert forall|a: int| 0 <= a < cur.len() implies cur[a] < k by {
            if a < prev.len() {
                assert(cur[a] == prev[a]);
            }
        }
    }
}

/// The word scan as it runs.
struct ScanState {
    words: Vec<Vec<char>>,
    cols: Vec<Vec<usize>>,
    types: Vec<WordType>,
    word: Vec<char>,
    wcols: Vec<usize>,
    state: Option<WordType>,
}

impl ScanState {
    spec fn view(&self) -> WordScan {
        WordScan {
            words: self.words@.map_values(|w: Vec<char>| w@),
            cols: self.cols@.map_values(|w: Vec<usize>| w@),
            types: self.types@,
            word: self.word@,
            wcols: self.wcols@,
            state: self.state,
        }
    }

    fn flush(&mut self)
        ensures
            final(self).view() == flush(old(self).view()),
    {
        if self.word.len() > 0 {
            let ghost before = self.view();
            let mut w: Vec<char> = Vec::new();
            std::mem::swap(&mut self.word, &mut w);
            let mut c: Vec<usize> = Vec::new();
            std::mem::swap(&mut self.wcols, &mut c);
            self.words.push(w);
            self.cols.push(c);
            match self.state {
                Some(s) => {
                    self.types.push(s);
                },
                None => {},
            }
            assert(self.view().words =~= before.words.push(before.word));
            assert(self.view().cols =~= before.cols.push(before.wcols));
            assert(self.view() == flush(before));
        }
    }
}

/// Groups the characters of a recognised line into words. `space[i]` says
/// whether `text[i]` is white space, and `selection` marks the time steps that
/// gave a character. A space ends the current word; so do a change between
/// CJK and other characters and a gap of more than `MAX_COL_GAP` columns
/// before a character. Each word keeps the selected column of each of its
/// characters and its type.
pub fn group_words(text: &Vec<char>, space: &Vec<bool>, selection: &Vec<bool>) -> (r: WordGroups)
    requires
        space@.len() == text@.len(),
    ensures
        r.words_view() == word_groups(text@, space@, selection@).words,
        r.cols_view() == word_groups(text@, space@, selection@).cols,
        r.word_types@ == word_groups(text@, space@, selection@).types,
{
    let vc = valid_columns(selection);
    let sel_len = selection.len();
    proof {
        lemma_valid_upto_increasing(selection@, selection@.len() as int);
    }
    if vc.len() == 0 {
        let r = WordGroups { words: Vec::new(), word_cols: Vec::new(), word_types: Vec::new() };
        assert(r.words_view() =~= Seq::<Seq<char>>::empty());
        assert(r.cols_view() =~= Seq::<Seq<usize>>::empty());
        return r;
    }
    let first_width: usize = if text.len() > 0 && 0x4e00 <= (text[0] as u32) && (text[0] as u32)
        <= 0x9fff {
        3
    } else {
        2
    };
    let mut st = ScanState {
        words: Vec::new(),
        cols: Vec::new(),
        types: Vec::new(),
        word: Vec::new(),
        wcols: Vec::new(),
        state: None,
    };
    assert(st.view().words =~= Seq::<Seq<char>>::empty());
    assert(st.view().cols =~= Seq::<Seq<usize>>::empty());
    let n = text.len();
    let mut c_i: usize = 0;
    while c_i < n
        invariant
            n == text@.len(),
            space@.len() == n,
            vc@ == valid_cols(selection@),
            vc@.len() > 0,
            forall|a: int, b: int| 0 <= a < b < vc@.len() ==> vc@[a] < vc@[b],
            first_width == (if text@.len() > 0 && is_cjk(text@[0]) { 3int } else { 2int }),
            c_i <= n,
            st.view() == scan_upto(text@, space@, vc@, c_i as int),
        decreases n - c_i,
    {
        let ch = text[c_i];
        if space[c_i] {
            st.flush();
        } else {
            let cs = if 0x4e00 <= (ch as u32) && (ch as u32) <= 0x9fff {
                WordType::Cn
            } else {
                WordType::EnNum
            };
            if st.state.is_none() {
                st.state = Some(cs);
            }
            let wide = if c_i < vc.len() {
                let gap: usize = if c_i == 0 {
                    if first_width <= vc[0] {
                        first_width
                    } else {
                        vc[0]
                    }
                } else {
                    vc[c_i] - vc[c_i - 1]
                };
                gap > MAX_COL_GAP
            } else {
                false
            };
            let same = match st.state {
                Some(s) => s == cs,
                None => false,
            };
            if !same || wide {
                st.flush();
                st.state = Some(cs);
            }
            st.word.push(ch);
            if c_i < vc.len() {
                st.wcols.push(vc[c_i]);
            }
        }
        c_i = c_i + 1;
    }
    st.flush();
    WordGroups { words: st.words, word_cols: st.cols, word_types: st.types }
}

/// Whether a character has Unicode's White_Space property.
pub uninterp spec fn white_space(c: char) -> bool;

/// Relies on `char::is_whitespace`: true exactly for the characters with
/// Unicode's White_Space property, a fact of the character alone.
#[verifier::external_body]
fn is_white_space(c: char) -> (r: bool)
    ensures
        r == white_space(c),
{
    c.is_whitespace()
}

/// The white-space flag of each character.
pub open spec fn space_flags(text: Seq<char>) -> Seq<bool> {
    text.map_values(|c: char| white_space(c))
}

/// Groups a recognised line into words (see `group_words`), with Unicode
/// white space separating words.
pub fn get_word_info(text: &Vec<char>, selection: &Vec<bool>) -> (r: WordGroups)
    ensures
        r.words_view() == word_groups(text@, space_flags(text@), selection@).words,
        r.cols_view() == word_groups(text@, space_flags(text@), selection@).cols,
        r.word_types@ == word_groups(text@, space_flags(text@), selection@).types,
{
    let mut space: Vec<bool> = Vec::new();
    let mut i: usize = 0;
    while i < text.len()
        invariant
            i <= text@.len(),
            space@ == space_flags(text@).subrange(0, i as int),
        decreases text@.len() - i,
    {
        space.push(is_white_space(text[i]));
        assert(space@ =~= space_flags(text@).subrange(0, i + 1));
        i = i + 1;
    }
    assert(space@ =~= space_flags(text@));
    group_words(text, &space, selection)
}

/// The words one after the other.
pub open spec fn concat_words(ws: Seq<Seq<char>>) -> Seq<char>
    decreases ws.len(),
{
    if ws.len() == 0 {
        Seq::empty()
    } else {
        concat_words(ws.drop_last()) + ws.last()
    }
}

/// The characters `text[i]`, `i < k`, that are not marked as space.
pub open spec fn non_space_upto(text: Seq<char>, space: Seq<bool>, k: int) -> Seq<char>
    decreases k,
{
    if k <= 0 {
        Seq::empty()
    } else {
        let prev = non_space_upto(text, space, k - 1);
        if space[k - 1] {
            prev
        } else {
            prev.push(text[k - 1])
        }
    }
}

/// What the word scan keeps true: the finished words and the current one
/// spell the non-space characters read so far; no word is empty; each word
/// has one type, that of all its characters.
pub open spec fn scan_inv(st: WordScan, read: Seq<char>) -> bool {
    &&& concat_words(st.words) + st.word == read
    &&& st.types.len() == st.words.len()
    &&& forall|i: int| 0 <= i < st.words.len() ==> #[trigger] st.words[i].len() > 0
    &&& forall|i: int, j: int|
        0 <= i < st.words.len() && 0 <= j < st.words[i].len() ==> type_of(
            #[trigger] st.words[i][j],
        ) == st.types[i]
    &&& st.word.len() > 0 ==> st.state.is_some()
    &&& forall|j: int|
        0 <= j < st.word.len() ==> Some(type_of(#[trigger] st.word[j])) == st.state
}

proof fn lemma_flush_inv(st: WordScan, read: Seq<char>)
    requires
        scan_inv(st, read),
    ensures
        scan_inv(flush(st), read),
        flush(st).word.len() == 0,
        flush(st).state == st.state,
{
    if st.word.len() > 0 {
        let f = flush(st);
        assert(f.words.drop_last() =~= st.words);
        assert(concat_words(f.words) == concat_words(st.words) + st.word);
        assert(concat_words(f.words) + f.word =~= concat_words(f.words));
        assert forall|i: int| 0 <= i < f.words.len() implies #[trigger] f.words[i].len() > 0 by {
            if i < st.words.len() {
                assert(f.words[i] == st.words[i]);
            }
        }
        assert forall|i: int, j: int|
            0 <= i < f.words.len() && 0 <= j < f.words[i].len() implies type_of(
                #[trigger] f.words[i][j],
            ) == f.types[i] by {
            if i < st.words.len() {
                assert(f.words[i] == st.words[i]);
                assert(f.types[i] == st.types[i]);
            } else {
                assert(f.words[i] == st.word);
                assert(f.types[i] == st.state.unwrap());
            }
        }
    }
}

proof fn lemma_scan_upto_inv(text: Seq<char>, space: Seq<bool>, vc: Seq<usize>, k: int)
    requires
        0 <= k <= text.len(),
        space.len() == text.len(),
    ensures
        scan_inv(scan_upto(text, space, vc, k), non_space_upto(text, space, k)),
    decreases k,
{
    if k == 0 {
        assert(concat_words(Seq::<Seq<char>>::empty()) + Seq::<char>::empty() =~= Seq::<char>::empty());
    } else {
        let i = k - 1;
        lemma_scan_upto_inv(text, space, vc, i);
        let st = scan_upto(text, space, vc, i);
        let read = non_space_upto(text, space, i);
        if space[i] {
            lemma_flush_inv(st, read);
        } else {
            let ch = text[i];
            let cs = type_of(ch);
            let st1 = if st.state.is_none() {
                WordScan { state: Some(cs), ..st }
            } else {
                st
            };
            assert(scan_inv(st1, read));
            let brk = st1.state != Some(cs) || (i < vc.len() && col_width(text, vc, i) > MAX_COL_GAP);
            let st2 = if brk {
                lemma_flush_inv(st1, read);
                WordScan { state: Some(cs), ..flush(st1) }
            } else {
                st1
            };
            assert(scan_inv(st2, read));
            assert(st2.state == Some(cs));
            let st3 = WordScan {
                word: st2.word.push(ch),
                wcols: if i < vc.len() {
                    st2.wcols.push(vc[i])
                } else {
                    st2.wcols
                },
                ..st2
            };
            assert(st3 == scan_upto(text, space, vc, k));
            assert(concat_words(st3.words) + st3.word =~= (concat_words(st2.words) + st2.word).push(ch));
            assert forall|j: int| 0 <= j < st3.word.len() implies Some(
                type_of(#[trigger] st3.word[j]),
            ) == st3.state by {
                if j < st2.word.len() {
                    assert(st3.word[j] == st2.word[j]);
                }
            }
        }
    }
}

/// The words of a line spell its non-space characters in order, none is
/// empty, and each word has a type, shared by all of its characters. (A
/// line with no selected column has no words.)
pub proof fn lemma_words_cover_line(text: Seq<char>, space: Seq<bool>, sel: Seq<bool>)
    requires
        space.len() == text.len(),
        valid_cols(sel).len() > 0,
    ensures
        concat_words(word_groups(text, space, sel).words) == non_space_upto(
            text,
            space,
            text.len() as int,
        ),
        word_groups(text, space, sel).types.len() == word_groups(text, space, sel).words.len(),
        forall|i: int|
            0 <= i < word_groups(text, space, sel).words.len() ==> #[trigger] word_groups(
                text,
                space,
                sel,
            ).words[i].len() > 0,
        forall|i: int, j: int|
            0 <= i < word_groups(text, space, sel).words.len() && 0 <= j < word_groups(
                text,
                space,
                sel,
            ).words[i].len() ==> type_of(#[trigger] word_groups(text, space, sel).words[i][j])
                == word_groups(text, space, sel).types[i],
{
    let vc = valid_cols(sel);
    let st = scan_upto(text, space, vc, text.len() as int);
    lemma_scan_upto_inv(text, space, vc, text.len() as int);
    lemma_flush_inv(st, non_space_upto(text, space, text.len() as int));
    let f = flush(st);
    assert(concat_words(f.words) + f.word =~= concat_words(f.words));
}

} // verus!
