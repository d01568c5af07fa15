use metlang::ast::Instr;
use metlang::parse::{ParseError, Parser};
use metlang::parser;
use metlang::symbols::{default_symbols, OpKind, SymbolEntry, SymbolTable};
use metlang::tokenizer::Tokenizer;

fn chars(s: &str) -> Vec<char> {
    s.chars().collect()
}

#[test]
fn default_table_shape() {
    let p = parser();
    assert_eq!(p.table.entries.len(), 8);
    assert_eq!(p.table.entries[0].pattern, chars("にゃうね"));
    assert_eq!(p.table.entries[0].kind, OpKind::PtrInc);
    assert_eq!(p.table.entries[1].pattern, chars("にゃん"));
    assert_eq!(p.table.entries[1].kind, OpKind::PtrDec);
    assert_eq!(p.table.entries[2].pattern, chars("にゃう"));
    assert_eq!(p.table.entries[2].kind, OpKind::DataInc);
    assert_eq!(p.table.entries[3].pattern, chars("にゃ？"));
    assert_eq!(p.table.entries[3].kind, OpKind::DataDec);
    assert_eq!(p.table.entries[4].pattern, chars("これになりたい"));
    assert_eq!(p.table.entries[4].kind, OpKind::Output);
    assert_eq!(p.table.entries[5].pattern, chars("これすき"));
    assert_eq!(p.table.entries[5].kind, OpKind::Input);
    assert_eq!(p.table.entries[6].pattern, chars("ポチった"));
    assert_eq!(p.table.entries[6].kind, OpKind::LoopHead);
    assert_eq!(p.table.entries[7].pattern, chars("ねる"));
    assert_eq!(p.table.entries[7].kind, OpKind::LoopEnd);
}

#[test]
fn tokenizer_longest_match_wins() {
    let table = default_symbols();
    let src = chars("にゃうねにゃうにゃん");
    let mut tk = Tokenizer::new(&table, &src);
    assert_eq!(tk.next_token(), Some(OpKind::PtrInc));
    assert_eq!(tk.next_token(), Some(OpKind::DataInc));
    assert_eq!(tk.next_token(), Some(OpKind::PtrDec));
    assert_eq!(tk.next_token(), None);
}

#[test]
fn tokenizer_skips_unknown_text() {
    let table = default_symbols();
    let src = chars("hello にゃう -- world ★ これすき!");
    let mut tk = Tokenizer::new(&table, &src);
    assert_eq!(tk.next_token(), Some(OpKind::DataInc));
    assert_eq!(tk.next_token(), Some(OpKind::Input));
    assert_eq!(tk.next_token(), None);
}

#[test]
fn tokenizer_unget_returns_token_first() {
    let table = default_symbols();
    let src = chars("にゃうねねる");
    let mut tk = Tokenizer::new(&table, &src);
    let t = tk.next_token().unwrap();
    assert_eq!(t, OpKind::PtrInc);
    tk.unget_token(t);
    assert_eq!(tk.next_token(), Some(OpKind::PtrInc));
    assert_eq!(tk.next_token(), Some(OpKind::LoopEnd));
    assert_eq!(tk.next_token(), None);
}

#[test]
fn coalesces_data_run_into_one_instruction() {
    let p = parser();
    let prog = p.parse(&chars("にゃうにゃうにゃう")).unwrap();
    assert_eq!(prog.instrs, vec![Instr::DataAdjust(3)]);
}

#[test]
fn coalesces_mixed_pointer_run_to_net_delta() {
    let p = parser();
    let prog = p.parse(&chars("にゃうねにゃうねにゃん")).unwrap();
    assert_eq!(prog.instrs, vec![Instr::PtrAdjust(1)]);
}

#[test]
fn zero_net_run_emits_nothing() {
    let p = parser();
    let prog = p.parse(&chars("にゃうねにゃん")).unwrap();
    assert_eq!(prog.instrs, Vec::<Instr>::new());
    let prog2 = p.parse(&chars("にゃうにゃ？")).unwrap();
    assert_eq!(prog2.instrs, Vec::<Instr>::new());
}

#[test]
fn axis_change_breaks_a_run() {
    let p = parser();
    let prog = p.parse(&chars("にゃうにゃうにゃうねにゃう")).unwrap();
    assert_eq!(
        prog.instrs,
        vec![Instr::DataAdjust(2), Instr::PtrAdjust(1), Instr::DataAdjust(1)]
    );
}

#[test]
fn parses_nested_loops() {
    let p = parser();
    let prog = p.parse(&chars("ポチったポチったねるねる")).unwrap();
    assert_eq!(prog.instrs, vec![Instr::Loop(vec![Instr::Loop(vec![])])]);
}

#[test]
fn parses_loop_body_in_order() {
    let p = parser();
    let prog = p
        .parse(&chars("にゃうポチったにゃ？これになりたいねる"))
        .unwrap();
    assert_eq!(
        prog.instrs,
        vec![
            Instr::DataAdjust(1),
            Instr::Loop(vec![Instr::DataAdjust(-1), Instr::Output]),
        ]
    );
}

#[test]
fn unterminated_loop_is_end_of_source() {
    let p = parser();
    assert_eq!(
        p.parse(&chars("ポチった")),
        Err(ParseError::UnexpectedEndOfSource)
    );
    assert_eq!(
        p.parse(&chars("にゃうポチったにゃう")),
        Err(ParseError::UnexpectedEndOfSource)
    );
    assert_eq!(
        p.parse(&chars("ポチったポチったねる")),
        Err(ParseError::UnexpectedEndOfSource)
    );
}

#[test]
fn unmatched_close_is_end_of_loop() {
    let p = parser();
    assert_eq!(p.parse(&chars("ねる")), Err(ParseError::UnexpectedEndOfLoop));
    assert_eq!(
        p.parse(&chars("comment ねる にゃう")),
        Err(ParseError::UnexpectedEndOfLoop)
    );
}

#[test]
fn a_single_character_dialect_can_be_swapped_in() {
    let entries = vec![
        SymbolEntry { pattern: vec!['>'], kind: OpKind::PtrInc },
        SymbolEntry { pattern: vec!['<'], kind: OpKind::PtrDec },
        SymbolEntry { pattern: vec!['+'], kind: OpKind::DataInc },
        SymbolEntry { pattern: vec!['-'], kind: OpKind::DataDec },
        SymbolEntry { pattern: vec!['.'], kind: OpKind::Output },
        SymbolEntry { pattern: vec![','], kind: OpKind::Input },
        SymbolEntry { pattern: vec!['['], kind: OpKind::LoopHead },
        SymbolEntry { pattern: vec![']'], kind: OpKind::LoopEnd },
    ];
    let p = Parser::new(SymbolTable::new(entries));
    let prog = p.parse(&chars("++[-].")).unwrap();
    assert_eq!(
        prog.instrs,
        vec![
            Instr::DataAdjust(2),
            Instr::Loop(vec![Instr::DataAdjust(-1)]),
            Instr::Output,
        ]
    );
}

#[test]
fn parse_str_matches_parse_on_the_same_text() {
    let p = parser();
    let text = "にゃうにゃう ポチった にゃ？ ねる これになりたい";
    let by_str = p.parse_str(text).unwrap();
    let by_chars = p.parse(&chars(text)).unwrap();
    assert_eq!(by_str, by_chars);
}

#[test]
fn empty_and_comment_only_sources_parse_to_empty_program() {
    let p = parser();
    assert_eq!(p.parse(&chars("")).unwrap().instrs, Vec::<Instr>::new());
    assert_eq!(
        p.parse(&chars("just a comment")).unwrap().instrs,
        Vec::<Instr>::new()
    );
}
