use rusto::cal_rec_boxes::{word_box_units, CalRecBoxes};
use rusto::ctc::{ctc_selection, get_word_info, group_words, has_chinese_char, valid_columns, WordType};
use rusto::types::{EngineConfig, EngineType, LangRec, ModelType, OcrVersion, RecConfig, TaskType};
use rusto::RapidOCRConfig;
use std::path::PathBuf;

fn chars(s: &str) -> Vec<char> {
    s.chars().collect()
}

#[test]
fn ctc_collapses_repeats_and_drops_blanks() {
    let tokens = vec![0, 5, 5, 0, 5, 7, 7, 7, 0, 0, 3];
    let sel = ctc_selection(&tokens);
    assert_eq!(
        sel,
        vec![false, true, false, false, true, true, false, false, false, false, true]
    );
    assert_eq!(valid_columns(&sel), vec![1, 4, 5, 10]);
    assert!(ctc_selection(&vec![]).is_empty());
}

#[test]
fn cjk_detection() {
    assert!(has_chinese_char(&chars("ab中")));
    assert!(!has_chinese_char(&chars("abc")));
    assert!(has_chinese_char(&chars("\u{4e00}")));
    assert!(has_chinese_char(&chars("\u{9fff}")));
    assert!(!has_chinese_char(&chars("\u{a000}")));
    assert!(!has_chinese_char(&chars("")));
}

#[test]
fn words_split_on_spaces_scripts_and_wide_gaps() {
    // columns:        a=1 b=2 ' '=3 c=4 中=5 文=6 d=20
    let text = chars("ab c中文d");
    let space: Vec<bool> = text.iter().map(|c| *c == ' ').collect();
    let mut sel = vec![false; 21];
    for i in [1, 2, 3, 4, 5, 6, 20] {
        sel[i] = true;
    }
    let g = group_words(&text, &space, &sel);
    assert_eq!(g.words, vec![chars("ab"), chars("c"), chars("中文"), chars("d")]);
    assert_eq!(g.word_cols, vec![vec![1, 2], vec![4], vec![5, 6], vec![20]]);
    assert_eq!(g.word_types, vec![WordType::EnNum, WordType::EnNum, WordType::Cn, WordType::EnNum]);
}

#[test]
fn five_alphanumeric_columns_form_one_word() {
    let text = chars("ab12z");
    let space = vec![false; 5];
    let mut sel = vec![false; 10];
    for i in 2..7 {
        sel[i] = true;
    }
    let g = group_words(&text, &space, &sel);
    assert_eq!(g.words, vec![chars("ab12z")]);
    assert_eq!(g.word_cols, vec![vec![2, 3, 4, 5, 6]]);
    assert_eq!(g.word_types, vec![WordType::EnNum]);
}

#[test]
fn no_selected_column_gives_no_words() {
    let text = chars("abc");
    let g = group_words(&text, &vec![false; 3], &vec![false; 4]);
    assert!(g.words.is_empty() && g.word_cols.is_empty() && g.word_types.is_empty());
}

#[test]
fn word_info_uses_unicode_white_space() {
    // U+3000 (ideographic space) and a tab separate words as well as ' '
    let text = chars("a\u{3000}b\tc d");
    let sel = vec![true; 7];
    let g = get_word_info(&text, &sel);
    assert_eq!(g.words, vec![chars("a"), chars("b"), chars("c"), chars("d")]);
    assert_eq!(g.word_cols, vec![vec![0], vec![2], vec![4], vec![6]]);
}

#[test]
fn config_values() {
    let eng = EngineConfig::with_threads(8);
    assert_eq!(eng.intra_op_num_threads, 8);
    assert_eq!(eng.inter_op_num_threads, 1);
    assert!(eng.enable_cpu_mem_arena);
    let rec = RecConfig::ppv5(PathBuf::from("rec.onnx"), eng);
    assert_eq!(rec.rec_img_shape, [3, 48, 320]);
    assert_eq!(rec.rec_batch_num, 6);
    assert_eq!(rec.model_path, PathBuf::from("rec.onnx"));
    assert!(rec.rec_keys_path.is_none());
    assert_eq!(rec.engine_type, EngineType::OnnxRuntime);
    assert_eq!(rec.lang_type, LangRec::Ch);
    assert_eq!(rec.model_type, ModelType::Mobile);
    assert_eq!(rec.ocr_version, OcrVersion::PpOcrV5);
    assert_eq!(rec.task_type, TaskType::Rec);
    let cfg = RapidOCRConfig::default();
    assert!(cfg.det_model_path.is_empty() && cfg.rec_model_path.is_empty() && cfg.dict_path.is_empty());
    assert_eq!(CalRecBoxes::new(), CalRecBoxes);
}

#[test]
fn alphanumeric_lines_box_whole_words() {
    let text = chars("ab cd");
    let space: Vec<bool> = text.iter().map(|c| *c == ' ').collect();
    let g = group_words(&text, &space, &vec![true; 5]);
    let u = word_box_units(&g, false);
    assert!(u.merged);
    assert_eq!(u.contents, vec![chars("ab"), chars("cd")]);
    assert_eq!(u.line_cols, vec![vec![0, 1], vec![3, 4]]);
    assert!(u.flat_cols.is_empty());
    let u = word_box_units(&g, true);
    assert!(!u.merged);
    assert_eq!(u.contents, vec![chars("a"), chars("b"), chars("c"), chars("d")]);
    assert_eq!(u.flat_cols, vec![0, 1, 3, 4]);
    assert!(u.line_cols.is_empty());
}

#[test]
fn mixed_script_lines_box_each_character() {
    let text = chars("ab中");
    let g = group_words(&text, &vec![false; 3], &vec![true; 3]);
    let u = word_box_units(&g, false);
    assert!(!u.merged);
    assert_eq!(u.contents, vec![chars("a"), chars("b"), chars("中")]);
    assert_eq!(u.flat_cols, vec![0, 1, 2]);
}

#[test]
fn words_spell_the_non_space_characters() {
    let text = chars("  x1 中文ab  9 ");
    let space: Vec<bool> = text.iter().map(|c| *c == ' ').collect();
    let sel = vec![true; text.len()];
    let g = group_words(&text, &space, &sel);
    let joined: Vec<char> = g.words.iter().flatten().copied().collect();
    let expected: Vec<char> = text.iter().copied().filter(|c| *c != ' ').collect();
    assert_eq!(joined, expected);
    assert!(g.words.iter().all(|w| !w.is_empty()));
    assert_eq!(g.words.len(), g.word_types.len());
    for (w, t) in g.words.iter().zip(g.word_types.iter()) {
        for c in w {
            let cjk = ('\u{4e00}'..='\u{9fff}').contains(c);
            assert_eq!(*t == WordType::Cn, cjk);
        }
    }
}
