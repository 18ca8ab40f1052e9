use s502::codec::{decode32, decode64, name_text, qualified, read_le16, read_le32};
use s502::formats::{
    ByteSelect as Select, Label as LinkLabel, ObjectSpan, Reference as LinkReference, RelocGroup,
    Section as LinkSection, Symbol, Visibility as Vis,
};
use s502::ir::make_name;
use s502::linker::{patch, resolve, visible, Entry, Image, LinkError, Linker};
use s502::object::{
    create_symtab, file_kind, has_extension, is_source_name, merge_section, read_object,
    read_objects, read_symtab, select_of, vis_of, FileKind, Input, ObjectError,
};
use s502::output::assemble_to_object;
use s502::script::{read_script, script_number, script_token, ScriptError, Token as ScriptToken};

fn full(parent: &[u8], child: Option<&[u8]>) -> [u8; 64] {
    qualified(&make_name(parent), &child.map(make_name))
}

fn object(name: &str, src: &[u8]) -> Input {
    Input { name: name.as_bytes().to_vec(), bytes: assemble_to_object(src).unwrap() }
}

fn link(script: &[u8], files: Vec<Input>) -> Result<Image, LinkError> {
    Linker::new(script, &files)?.link()
}

fn group(names: &[&[u8]], address: usize, max_size: Option<usize>) -> RelocGroup {
    RelocGroup { relocations: names.iter().map(|n| make_name(n)).collect(), address, max_size }
}

fn same(a: &RelocGroup, b: &RelocGroup) -> bool {
    a.relocations == b.relocations && a.address == b.address && a.max_size == b.max_size
}

#[test]
fn script_lines_become_groups() {
    let groups = read_script(
        b"// where things go\n0x1000 text\ndata 0x100\n\none two 0x200 // both\n0x0f00 something\n",
    )
    .unwrap();
    let want = vec![
        group(&[b"text"], 0x1000, None),
        group(&[b"data"], 0x1000, Some(0x100)),
        group(&[b"one", b"two"], 0x1000, Some(0x200)),
        group(&[b"something"], 0x0f00, None),
    ];
    assert_eq!(groups.len(), want.len());
    for (g, w) in groups.iter().zip(want.iter()) {
        assert!(same(g, w), "{:?} is not {:?}", g, w);
    }
}

#[test]
fn script_without_address_starts_at_zero() {
    let groups = read_script(b"text data").unwrap();
    assert_eq!(groups.len(), 1);
    assert!(same(&groups[0], &group(&[b"text", b"data"], 0, None)));
    assert!(read_script(b"").unwrap().is_empty());
    assert!(read_script(b"\n\n  \n").unwrap().is_empty());
}

#[test]
fn script_address_alone_moves_the_cursor() {
    let groups = read_script(b"8192\ntext\n4096 16\n").unwrap();
    assert_eq!(groups.len(), 3);
    assert!(same(&groups[0], &group(&[], 8192, None)));
    assert!(same(&groups[1], &group(&[b"text"], 8192, None)));
    assert!(same(&groups[2], &group(&[], 4096, Some(16))));
}

#[test]
fn script_with_a_section_twice_is_refused() {
    let src = b"0x1000 text\ndata text\n";
    let f = read_script(src).unwrap_err();
    assert_eq!(f.error, ScriptError::DuplicateSection);
    assert_eq!(f.line, 2);
    assert_eq!(&src[f.start..f.end], b"text");
    assert_eq!(read_script(b"a a").unwrap_err().error, ScriptError::DuplicateSection);
    assert_eq!(read_script(b"a\nb\nc\n\na\n").unwrap_err().line, 5);
    let err = Linker::new(b"text\ntext\n", &Vec::new()).unwrap_err();
    assert!(matches!(
        err,
        LinkError::Script { failure } if failure.error == ScriptError::DuplicateSection
    ));
}

#[test]
fn script_errors() {
    assert_eq!(read_script(b"data 0x100 more\n").unwrap_err().error, ScriptError::ExpectedEol);
    assert_eq!(read_script(b"data 1 2\n").unwrap_err().error, ScriptError::ExpectedEol);
    assert_eq!(read_script(b"data 1 ?\n").unwrap_err().error, ScriptError::ExpectedEol);
    assert_eq!(read_script(b"70000 text\n").unwrap_err().error, ScriptError::UnrecognizedToken);
    assert_eq!(read_script(b"0x10000 t\n").unwrap_err().error, ScriptError::UnrecognizedToken);
    assert_eq!(read_script(b"text ?\n").unwrap_err().error, ScriptError::UnrecognizedToken);
    assert_eq!(read_script(b"/ text\n").unwrap_err().error, ScriptError::UnrecognizedToken);
    assert_eq!(read_script(b"text // open").unwrap_err().error, ScriptError::UnrecognizedToken);
    let long = [b'n'; 32];
    assert_eq!(read_script(&long).unwrap_err().error, ScriptError::UnrecognizedToken);
    assert!(read_script(&long[..31]).is_ok());
    assert!(read_script(b"65535 text 0xffff\n").is_ok());
}

#[test]
fn script_tokens_and_numbers() {
    assert_eq!(script_token(b"0x1F ", 0), (ScriptToken::Number, 4));
    assert_eq!(script_token(b"0xg", 0), (ScriptToken::Number, 1));
    assert_eq!(script_token(b"12ab", 0), (ScriptToken::Number, 2));
    assert_eq!(script_token(b"ab_1 ", 0), (ScriptToken::Ident, 4));
    assert_eq!(script_token(b"//x\ny", 0), (ScriptToken::Eol, 4));
    assert_eq!(script_token(b"\n", 0), (ScriptToken::Eol, 1));
    assert_eq!(script_token(b"$", 0), (ScriptToken::Error, 1));
    assert_eq!(script_number(b"0x1F"), Some(31));
    assert_eq!(script_number(b"31"), Some(31));
    assert_eq!(script_number(b"65536"), None);
    assert_eq!(script_number(b"0x"), None);
}

#[test]
fn groups_compare_by_address() {
    let a = group(&[b"one"], 16, None);
    let b = group(&[b"two"], 16, Some(4));
    let c = group(&[b"one"], 32, None);
    assert!(a == b);
    assert!(a != c);
    assert!(a < c);
    assert!(c > b);
    assert!(a <= b && a >= b);
}

#[test]
fn file_names_tell_the_kind() {
    assert_eq!(file_kind(b"prog.65o"), Some(FileKind::Object));
    assert_eq!(file_kind(b"dir.d/prog.65s"), Some(FileKind::Symbols));
    assert_eq!(file_kind(b"prog.65a"), None);
    assert_eq!(file_kind(b".65o"), None);
    assert_eq!(file_kind(b"dir/.65o"), None);
    assert_eq!(file_kind(b"prog65o"), None);
    assert_eq!(file_kind(b"prog.65o.bak"), None);
    assert!(is_source_name(b"prog.65a"));
    assert!(!is_source_name(b"prog.65o"));
    assert!(has_extension(b"a.b", b"b"));
    assert!(!has_extension(b"b", b"b"));
}

#[test]
fn codes_of_visibility_and_selection() {
    assert_eq!(vis_of(0), Some(Vis::Hidden));
    assert_eq!(vis_of(1), Some(Vis::Object));
    assert_eq!(vis_of(2), Some(Vis::Global));
    assert_eq!(vis_of(3), None);
    assert_eq!(select_of(0), Some(Select::Both));
    assert_eq!(select_of(1), Some(Select::High));
    assert_eq!(select_of(2), Some(Select::Low));
    assert_eq!(select_of(3), None);
}

#[test]
fn integers_and_names_decode() {
    assert_eq!(read_le32(&[0x78, 0x56, 0x34, 0x12], 0), 0x12345678);
    assert_eq!(read_le16(&[0, 0x34, 0x12], 1), 0x1234);
    let mut field = [0u8; 32];
    field[..3].copy_from_slice(b"abc");
    field[5] = b'z';
    assert_eq!(decode32(&field, 0), Some(make_name(b"abc")));
    field[1] = 0x80;
    assert_eq!(decode32(&field, 0), None);
    let mut wide = [0u8; 64];
    wide[..7].copy_from_slice(b"one.two");
    assert_eq!(decode64(&wide, 0), Some(full(b"one", Some(b"two"))));
}

const PROGRAM: &[u8] =
    b"sct text\nstart lda #value<\n jmp start\n.loop dex\n bne .loop\nsct data\n!value dfb 7\n";

#[test]
fn object_round_trip() {
    let bytes = assemble_to_object(PROGRAM).unwrap();
    let sections = read_object(&bytes, 3).unwrap();
    assert_eq!(sections.len(), 3);
    assert_eq!(sections[0].name, [0u8; 32]);
    assert!(sections[0].code.is_empty());
    assert_eq!(
        sections[0].references,
        vec![LinkReference {
            referred: full(b"text", None),
            offset: 0,
            which_byte: Select::Both,
            branch: false,
            object: 3,
        }]
    );
    let text = &sections[1];
    assert_eq!(text.name, make_name(b"text"));
    assert_eq!(text.code, vec![0xa9, 0, 0x4c, 0, 0, 0xca, 0xd0, 0]);
    assert_eq!(text.size(), 8);
    assert_eq!(text.base, 0);
    assert_eq!(text.objects, vec![ObjectSpan { object: 3, start: 0, end: 8 }]);
    assert_eq!(
        text.labels,
        vec![
            LinkLabel {
                name: full(b"start", None),
                vis: Vis::Global,
                offset: 0,
                child: false,
                scope_start: 0,
                scope_end: 8,
                object: 3,
            },
            LinkLabel {
                name: full(b"start", Some(b"loop")),
                vis: Vis::Hidden,
                offset: 5,
                child: true,
                scope_start: 0,
                scope_end: 8,
                object: 3,
            },
        ]
    );
    assert_eq!(
        text.references,
        vec![
            LinkReference {
                referred: full(b"value", None),
                offset: 1,
                which_byte: Select::High,
                branch: false,
                object: 3,
            },
            LinkReference {
                referred: full(b"start", None),
                offset: 3,
                which_byte: Select::Both,
                branch: false,
                object: 3,
            },
            LinkReference {
                referred: full(b"start", Some(b"loop")),
                offset: 7,
                which_byte: Select::Both,
                branch: true,
                object: 3,
            },
            LinkReference {
                referred: full(b"data", None),
                offset: 8,
                which_byte: Select::Both,
                branch: false,
                object: 3,
            },
        ]
    );
    let data = &sections[2];
    assert_eq!(data.name, make_name(b"data"));
    assert_eq!(data.code, vec![7]);
    assert_eq!(data.labels[0].vis, Vis::Object);
    assert_eq!(data.labels[0].name, full(b"value", None));
}

#[test]
fn scopes_end_at_the_next_parent() {
    let bytes = assemble_to_object(b"one nop\n.a nop\n.b nop\ntwo nop\n.c nop\n").unwrap();
    let s = &read_object(&bytes, 0).unwrap()[0];
    let scopes: Vec<(usize, usize, bool)> =
        s.labels.iter().map(|l| (l.scope_start, l.scope_end, l.child)).collect();
    assert_eq!(
        scopes,
        vec![(0, 3, false), (0, 3, true), (0, 3, true), (3, 5, false), (3, 5, true)]
    );
}

#[test]
fn malformed_objects_are_refused() {
    let good = assemble_to_object(PROGRAM).unwrap();
    assert_eq!(read_object(&[], 0).unwrap_err(), ObjectError::Truncated);
    assert_eq!(read_object(&[1, 0, 0], 0).unwrap_err(), ObjectError::Truncated);
    assert_eq!(read_object(&good[..good.len() - 1], 0).unwrap_err(), ObjectError::Truncated);
    assert_eq!(read_object(&good[..100], 0).unwrap_err(), ObjectError::Truncated);
    assert!(read_object(&[0, 0, 0, 0], 0).unwrap().is_empty());
    let mut bad = good.clone();
    bad[4] = 0xff;
    assert_eq!(read_object(&bad, 0).unwrap_err(), ObjectError::BadName);
    // the default section takes 44 + 72 bytes, so `text` has its header at
    // 120, its first parent at 164 and its first reference at 248
    let mut bad = good.clone();
    bad[164 + 40] = 9;
    assert_eq!(read_object(&bad, 0).unwrap_err(), ObjectError::BadVisibility);
    let mut bad = good.clone();
    bad[164 + 36] = 9;
    assert_eq!(read_object(&bad, 0).unwrap_err(), ObjectError::BadLabel);
    let mut bad = good.clone();
    bad[120 + 34] = 2;
    assert_eq!(read_object(&bad, 0).unwrap_err(), ObjectError::SectionTooLarge);
    let mut bad = good.clone();
    bad[248 + 68] = 3;
    assert_eq!(read_object(&bad, 0).unwrap_err(), ObjectError::BadByteSelect);
    let mut bad = good.clone();
    bad[248 + 64] = 8;
    assert_eq!(read_object(&bad, 0).unwrap()[1].references[0].offset, 8);
    let mut bad = good.clone();
    bad[248 + 64] = 9;
    assert_eq!(read_object(&bad, 0).unwrap_err(), ObjectError::BadReference);
    let mut bad = good.clone();
    bad[248 + 72 + 64] = 9;
    assert_eq!(read_object(&bad, 0).unwrap_err(), ObjectError::BadReference);
}

#[test]
fn symbol_tables_round_trip() {
    let symbols = vec![
        Symbol { name: full(b"reset", None), address: 0xfffc },
        Symbol { name: full(b"reset", Some(b"skip")), address: 0x12345 },
    ];
    let bytes = create_symtab(&symbols);
    assert_eq!(bytes.len(), 4 + 2 * 68);
    assert_eq!(&bytes[..4], &[2, 0, 0, 0]);
    assert_eq!(&bytes[4..9], b"reset");
    assert_eq!(&bytes[68..72], &[0xfc, 0xff, 0, 0]);
    assert_eq!(&bytes[72..82], b"reset.skip");
    assert_eq!(read_symtab(&bytes).unwrap(), symbols);
    assert_eq!(read_symtab(&bytes[..70]).unwrap_err(), ObjectError::Truncated);
    assert_eq!(read_symtab(&[1]).unwrap_err(), ObjectError::Truncated);
    let mut bad = bytes.clone();
    bad[5] = 0x90;
    assert_eq!(read_symtab(&bad).unwrap_err(), ObjectError::BadName);
}

#[test]
fn sections_of_one_name_merge() {
    let first = object("a.65o", b"sct data\none dfb 1\n dfw one\n");
    let second = object("b.65o", b"sct data\ntwo dfb 2\n.in dfb 3\n dfw two.in\n dfb two>\n");
    let (sections, symbols) = read_objects(&vec![first, second]).unwrap();
    assert!(symbols.is_empty());
    assert_eq!(sections.len(), 2);
    let data = &sections[1];
    assert_eq!(data.name, make_name(b"data"));
    assert_eq!(data.code, vec![1, 0, 0, 2, 3, 0, 0, 0]);
    assert_eq!(data.size(), 3 + 5);
    assert_eq!(
        data.objects,
        vec![ObjectSpan { object: 0, start: 0, end: 3 }, ObjectSpan { object: 1, start: 3, end: 8 }]
    );
    let labels: Vec<(usize, usize, usize, usize)> =
        data.labels.iter().map(|l| (l.offset, l.scope_start, l.scope_end, l.object)).collect();
    assert_eq!(labels, vec![(0, 0, 3, 0), (3, 3, 8, 1), (4, 3, 8, 1)]);
    let references: Vec<(usize, usize)> =
        data.references.iter().map(|r| (r.offset, r.object)).collect();
    assert_eq!(references, vec![(1, 0), (5, 1), (7, 1)]);
}

#[test]
fn merged_section_holds_65536_bytes_and_no_more() {
    let mut half = b"sct big\n".to_vec();
    for _ in 0..32768 {
        half.extend_from_slice(b"nop\n");
    }
    let a = object("a.65o", &half);
    let b = object("b.65o", &half);
    let (sections, _) = read_objects(&vec![a, b]).unwrap();
    assert_eq!(sections[1].code.len(), 65536);
    let a = object("a.65o", &half);
    let b = object("b.65o", &half);
    let c = object("c.65o", b"sct big\nnop\n");
    let err = read_objects(&vec![a, b, c]).unwrap_err();
    assert_eq!(err, LinkError::SectionTooLarge { section: make_name(b"big") });
}

#[test]
fn merge_section_appends_and_shifts() {
    let mut all: Vec<LinkSection> = Vec::new();
    let one = read_object(&assemble_to_object(b"sct s\nl nop\n jmp l\n").unwrap(), 0).unwrap();
    let two = read_object(&assemble_to_object(b"sct s\nm nop\n jmp m\n").unwrap(), 1).unwrap();
    merge_section(&mut all, &one[1]).unwrap();
    assert_eq!(all.len(), 1);
    assert_eq!(all[0].code, one[1].code);
    assert_eq!(all[0].labels, one[1].labels);
    merge_section(&mut all, &two[1]).unwrap();
    assert_eq!(all.len(), 1);
    assert_eq!(all[0].code.len(), 8);
    assert_eq!(all[0].labels[1].offset, 4);
    assert_eq!(all[0].references[1].offset, 6);
}

#[test]
fn input_errors() {
    let wrong = Input { name: b"a.txt".to_vec(), bytes: Vec::new() };
    let good = object("a.65o", b"nop\n");
    assert_eq!(
        read_objects(&vec![good, wrong]).unwrap_err(),
        LinkError::WrongExtension { file: 1 }
    );
    let bad = Input { name: b"a.65o".to_vec(), bytes: vec![1, 0, 0, 0] };
    assert_eq!(
        read_objects(&vec![bad]).unwrap_err(),
        LinkError::BadFile { file: 0, error: ObjectError::Truncated }
    );
    let bad = Input { name: b"a.65s".to_vec(), bytes: vec![1, 0, 0, 0] };
    assert_eq!(
        read_objects(&vec![bad]).unwrap_err(),
        LinkError::BadFile { file: 0, error: ObjectError::Truncated }
    );
}

#[test]
fn symbol_twice_is_refused() {
    let table = create_symtab(&vec![Symbol { name: full(b"io", None), address: 0xd000 }]);
    let a = Input { name: b"a.65s".to_vec(), bytes: table.clone() };
    let b = Input { name: b"b.65s".to_vec(), bytes: table.clone() };
    assert_eq!(
        read_objects(&vec![a, b]).unwrap_err(),
        LinkError::DuplicateSymbol { name: full(b"io", None) }
    );
    let twice = create_symtab(&vec![
        Symbol { name: full(b"io", None), address: 1 },
        Symbol { name: full(b"io", None), address: 2 },
    ]);
    let c = Input { name: b"c.65s".to_vec(), bytes: twice };
    assert_eq!(
        read_objects(&vec![c]).unwrap_err(),
        LinkError::DuplicateSymbol { name: full(b"io", None) }
    );
    let a = Input { name: b"a.65s".to_vec(), bytes: table };
    let (_, symbols) = read_objects(&vec![a]).unwrap();
    assert_eq!(symbols, vec![Symbol { name: full(b"io", None), address: 0xd000 }]);
}

const TEXT: &[u8] = b"sct text\nstart lda #value<\n jmp start\n.loop dex\n bne .loop\n";

const DATA: &[u8] = b"sct data\nvalue dfb 7\n";

#[test]
fn link_places_and_patches() {
    let files = vec![object("text.65o", TEXT), object("data.65o", DATA)];
    let image = link(b"0x1000 text\n0x1008 data\n", files).unwrap();
    assert_eq!(image.origin, 0x1000);
    assert_eq!(image.bytes, vec![0xa9, 0x10, 0x4c, 0x00, 0x10, 0xca, 0xd0, 0xfd, 0x07]);
    assert_eq!(
        image.symbols,
        vec![
            Symbol { name: full(b"start", None), address: 0x1000 },
            Symbol { name: full(b"value", None), address: 0x1008 },
        ]
    );
    let files = vec![object("text.65o", TEXT), object("data.65o", DATA)];
    let image = link(b"0x1000 text data\n", files).unwrap();
    assert_eq!(image.bytes, vec![0xa9, 0x10, 0x4c, 0x00, 0x10, 0xca, 0xd0, 0xfd, 0x07]);
}

#[test]
fn link_selects_bytes_of_the_address() {
    let text = b"sct text\n lda #there>\n lda #there<\n jmp there\n";
    let far = b"sct far\nthere nop\n";
    let files = vec![object("p.65o", text), object("q.65o", far)];
    let image = link(b"0x0200 text\n0x1234 far\n", files).unwrap();
    assert_eq!(image.origin, 0x0200);
    assert_eq!(image.bytes.len(), 0x1235 - 0x0200);
    assert_eq!(&image.bytes[..7], &[0xa9, 0x34, 0xa9, 0x12, 0x4c, 0x34, 0x12]);
    assert_eq!(image.bytes[7], 0);
    assert_eq!(image.bytes[0x1234 - 0x0200], 0xea);
}

#[test]
fn section_name_in_a_placed_section_is_a_reference() {
    let both = b"sct text\n nop\nsct data\n dfb 1\n";
    assert_eq!(
        link(b"0x10 text\n0x20 data\n", vec![object("p.65o", both)]).unwrap_err(),
        LinkError::Unresolved { name: full(b"data", None) }
    );
    let named = b"sct text\n nop\nsct data\ndata dfb 1\n";
    assert_eq!(
        link(b"0x10 text\n0x20 data\n", vec![object("p.65o", named)]).unwrap_err(),
        LinkError::ReferenceOutside { name: full(b"data", None) }
    );
    let back = b"sct data\n nop\nsct text\n nop\nsct data\ntext nop\n nop\n";
    let image = link(b"0x10 data\n", vec![object("p.65o", back)]).unwrap();
    assert_eq!((image.origin, image.bytes), (0x10, vec![0xea, 0x11, 0x00]));
    assert_eq!(
        link(b"0x10 data\n0x20 text\n", vec![object("p.65o", back)]).unwrap_err(),
        LinkError::Unresolved { name: full(b"data", None) }
    );
}

fn one_and_two() -> Vec<Input> {
    vec![
        object("one.65o", b"sct one\n dfb 1\n dfb 1\n dfb 1\n dfb 1\n"),
        object("two.65o", b"sct two\n dfb 2\n dfb 2\n"),
    ]
}

#[test]
fn later_groups_overwrite_earlier_ones() {
    let image = link(b"0x10 one\n0x12 two\n", one_and_two()).unwrap();
    assert_eq!((image.origin, image.bytes), (0x10, vec![1, 1, 2, 2]));
    let image = link(b"0x12 two\n0x10 one\n", one_and_two()).unwrap();
    assert_eq!((image.origin, image.bytes), (0x10, vec![1, 1, 1, 1]));
    let image = link(b"0x10 one two\n", one_and_two()).unwrap();
    assert_eq!((image.origin, image.bytes), (0x10, vec![1, 1, 1, 1, 2, 2]));
    let image = link(b"0x10 missing\n", one_and_two()).unwrap();
    assert_eq!((image.origin, image.bytes), (0, vec![]));
}

#[test]
fn every_group_starts_at_its_address() {
    let image = link(b"0x10 one\n0x10 two\n", one_and_two()).unwrap();
    assert_eq!((image.origin, image.bytes), (0x10, vec![2, 2, 1, 1]));
    let image = link(b"0x10 one\ntwo\n", one_and_two()).unwrap();
    assert_eq!((image.origin, image.bytes), (0x10, vec![2, 2, 1, 1]));
    let image = link(b"one\n0x10 two\n", one_and_two()).unwrap();
    assert_eq!((image.origin, image.bytes.len()), (0, 0x12));
    assert_eq!(&image.bytes[..5], &[1, 1, 1, 1, 0]);
    assert_eq!(&image.bytes[0x10..], &[2, 2]);
    let files = vec![
        object("a.65o", b"sct one\n nop\nhere jmp here\n"),
        object("b.65o", b"sct two\n nop\n nop\nthere jmp there\n"),
    ];
    let image = link(b"0x100 one\n0x100 two\n", files).unwrap();
    assert_eq!(image.bytes, vec![0xea, 0xea, 0x4c, 0x02, 0x01]);
    assert_eq!(
        image.symbols,
        vec![
            Symbol { name: full(b"here", None), address: 0x101 },
            Symbol { name: full(b"there", None), address: 0x102 },
        ]
    );
}

#[test]
fn group_sizes_and_the_address_space_are_limits() {
    assert!(link(b"one two 6\n", one_and_two()).is_ok());
    assert_eq!(
        link(b"one two 5\n", one_and_two()).unwrap_err(),
        LinkError::GroupTooLarge { group: 0 }
    );
    assert_eq!(
        link(b"one\ntwo 1\n", one_and_two()).unwrap_err(),
        LinkError::GroupTooLarge { group: 1 }
    );
    assert!(link(b"0xfffc one\n", one_and_two()).is_ok());
    assert_eq!(
        link(b"0xfffd one\n", one_and_two()).unwrap_err(),
        LinkError::AddressOverflow { group: 0 }
    );
    assert_eq!(
        link(b"0xfff0 two\n0xfffd one\n", one_and_two()).unwrap_err(),
        LinkError::AddressOverflow { group: 1 }
    );
}

fn branch_over(nops: usize, back: bool) -> Result<Image, LinkError> {
    let mut src = b"sct text\n".to_vec();
    if back {
        src.extend_from_slice(b"target\n");
        for _ in 0..nops {
            src.extend_from_slice(b" nop\n");
        }
        src.extend_from_slice(b" bne target\n");
    } else {
        src.extend_from_slice(b" bne target\n");
        for _ in 0..nops {
            src.extend_from_slice(b" nop\n");
        }
        src.extend_from_slice(b"target nop\n");
    }
    link(b"0x1000 text\n", vec![object("p.65o", &src)])
}

#[test]
fn branches_reach_a_signed_byte_and_no_further() {
    let image = branch_over(127, false).unwrap();
    assert_eq!(&image.bytes[..2], &[0xd0, 0x7f]);
    let image = branch_over(0, false).unwrap();
    assert_eq!(&image.bytes[..2], &[0xd0, 0x00]);
    assert_eq!(
        branch_over(128, false).unwrap_err(),
        LinkError::BranchOutOfRange { name: full(b"target", None) }
    );
    let image = branch_over(125, true).unwrap();
    assert_eq!(&image.bytes[125..], &[0xd0, 0x81]);
    let image = branch_over(126, true).unwrap();
    assert_eq!(&image.bytes[126..], &[0xd0, 0x80]);
    assert_eq!(
        branch_over(127, true).unwrap_err(),
        LinkError::BranchOutOfRange { name: full(b"target", None) }
    );
    let image = branch_over(0, true).unwrap();
    assert_eq!(image.bytes, vec![0xd0, 0xfe]);
}

#[test]
fn patch_values() {
    let r = LinkReference {
        referred: full(b"l", None),
        offset: 0,
        which_byte: Select::Both,
        branch: false,
        object: 0,
    };
    assert_eq!(patch(&r, 0x1234, 0), Ok(vec![0x34, 0x12]));
    assert_eq!(patch(&LinkReference { which_byte: Select::High, ..r }, 0x1234, 0), Ok(vec![0x12]));
    assert_eq!(patch(&LinkReference { which_byte: Select::Low, ..r }, 0x1234, 0), Ok(vec![0x34]));
    assert_eq!(patch(&r, 0xffff, 0), Ok(vec![0xff, 0xff]));
    assert_eq!(
        patch(&r, 0x10000, 0),
        Err(LinkError::AddressTooLarge { name: full(b"l", None) })
    );
    let b = LinkReference { branch: true, ..r };
    assert_eq!(patch(&b, 0x1010, 0x1000), Ok(vec![0x0f]));
    assert_eq!(patch(&b, 0x1001, 0x1000), Ok(vec![0x00]));
    assert_eq!(patch(&b, 0x1000, 0x1000), Ok(vec![0xff]));
    assert_eq!(patch(&b, 0x1080, 0x1000), Ok(vec![0x7f]));
    assert_eq!(patch(&b, 0x0f81, 0x1000), Ok(vec![0x80]));
    assert_eq!(
        patch(&b, 0x1081, 0x1000),
        Err(LinkError::BranchOutOfRange { name: full(b"l", None) })
    );
    assert_eq!(
        patch(&b, 0x0f80, 0x1000),
        Err(LinkError::BranchOutOfRange { name: full(b"l", None) })
    );
}

#[test]
fn hidden_child_is_seen_from_its_scope_only() {
    let inside = b"sct text\none nop\n.inner jmp one.inner\ntwo nop\n";
    let image = link(b"0x1000 text\n", vec![object("p.65o", inside)]).unwrap();
    assert_eq!(image.bytes, vec![0xea, 0x4c, 0x01, 0x10, 0xea]);
    let outside = b"sct text\none nop\n.inner nop\ntwo jmp one.inner\n";
    assert_eq!(
        link(b"0x1000 text\n", vec![object("p.65o", outside)]).unwrap_err(),
        LinkError::NotVisible { name: full(b"one", Some(b"inner")) }
    );
    let marked = b"sct text\none nop\n! .inner nop\ntwo jmp one.inner\n";
    assert!(link(b"0x1000 text\n", vec![object("p.65o", marked)]).is_ok());
    let hidden = b"sct text\none nop\n.inner nop\n";
    let other = b"sct more\n jmp one.inner\n";
    assert_eq!(
        link(b"0x1000 text more\n", vec![object("p.65o", hidden), object("q.65o", other)])
            .unwrap_err(),
        LinkError::NotVisible { name: full(b"one", Some(b"inner")) }
    );
}

#[test]
fn object_labels_stay_in_their_object() {
    let a = b"sct text\n!private nop\npublic nop\n jmp private\n";
    let b = b"sct text\n jmp public\n";
    let image = link(b"0x1000 text\n", vec![object("a.65o", a), object("b.65o", b)]).unwrap();
    assert_eq!(image.bytes, vec![0xea, 0xea, 0x4c, 0x00, 0x10, 0x4c, 0x01, 0x10]);
    assert_eq!(image.symbols, vec![Symbol { name: full(b"public", None), address: 0x1001 }]);
    let c = b"sct text\n jmp private\n";
    assert_eq!(
        link(b"0x1000 text\n", vec![object("a.65o", a), object("c.65o", c)]).unwrap_err(),
        LinkError::NotVisible { name: full(b"private", None) }
    );
}

#[test]
fn unknown_names_and_symbol_tables() {
    let src = b"sct text\n jmp io\n";
    assert_eq!(
        link(b"text\n", vec![object("a.65o", src)]).unwrap_err(),
        LinkError::Unresolved { name: full(b"io", None) }
    );
    let table = create_symtab(&vec![Symbol { name: full(b"io", None), address: 0xd012 }]);
    let symbols = Input { name: b"rom.65s".to_vec(), bytes: table };
    let image = link(b"text\n", vec![object("a.65o", src), symbols]).unwrap();
    assert_eq!(image.bytes, vec![0x4c, 0x12, 0xd0]);
    let table = create_symtab(&vec![Symbol { name: full(b"io", None), address: 0x10000 }]);
    let symbols = Input { name: b"rom.65s".to_vec(), bytes: table };
    assert_eq!(
        link(b"text\n", vec![object("a.65o", src), symbols]).unwrap_err(),
        LinkError::AddressTooLarge { name: full(b"io", None) }
    );
    let unplaced = b"sct text\n jmp there\nsct other\nthere nop\n";
    assert_eq!(
        link(b"text\n", vec![object("a.65o", unplaced)]).unwrap_err(),
        LinkError::Unresolved { name: full(b"there", None) }
    );
}

#[test]
fn resolve_takes_the_first_visible_label() {
    let entry = |vis: Vis, address: usize, object: usize| Entry {
        name: full(b"l", None),
        address,
        vis,
        object,
        section: 0,
        scope_start: 4,
        scope_end: 8,
    };
    let r = LinkReference {
        referred: full(b"l", None),
        offset: 5,
        which_byte: Select::Both,
        branch: false,
        object: 1,
    };
    let table = vec![entry(Vis::Object, 1, 0), entry(Vis::Hidden, 2, 1), entry(Vis::Global, 3, 0)];
    assert_eq!(resolve(&table, &Vec::new(), &r, 0), Ok(2));
    assert_eq!(resolve(&table, &Vec::new(), &r, 1), Ok(3));
    assert_eq!(resolve(&table, &Vec::new(), &LinkReference { offset: 8, ..r }, 0), Ok(3));
    assert_eq!(resolve(&table, &Vec::new(), &LinkReference { offset: 4, ..r }, 0), Ok(2));
    assert_eq!(resolve(&table, &Vec::new(), &LinkReference { object: 0, ..r }, 0), Ok(1));
    assert!(visible(table[1], r, 0));
    assert!(!visible(table[1], LinkReference { offset: 3, ..r }, 0));
    assert!(!visible(table[0], r, 0));
    let symbols = vec![Symbol { name: full(b"l", None), address: 9 }];
    assert_eq!(
        resolve(&table[..1].to_vec(), &symbols, &r, 0),
        Err(LinkError::NotVisible { name: full(b"l", None) })
    );
    assert_eq!(resolve(&Vec::new(), &symbols, &r, 0), Ok(9));
    assert_eq!(resolve(&table, &symbols, &r, 0), Ok(2));
    assert_eq!(
        resolve(&table[..1].to_vec(), &Vec::new(), &r, 0),
        Err(LinkError::NotVisible { name: full(b"l", None) })
    );
    assert_eq!(
        resolve(&Vec::new(), &Vec::new(), &r, 0),
        Err(LinkError::Unresolved { name: full(b"l", None) })
    );
}

#[test]
fn hidden_scope_moves_with_its_section() {
    let first = b"sct text\n nop\n nop\n nop\n";
    let second = b"sct text\nmain nop\n.inner jmp main.inner\nnext jmp next\n";
    let files = vec![object("a.65o", first), object("b.65o", second)];
    let image = link(b"0x2000 text\n", files).unwrap();
    assert_eq!(
        image.bytes,
        vec![0xea, 0xea, 0xea, 0xea, 0x4c, 0x04, 0x20, 0x4c, 0x07, 0x20]
    );
    let (sections, _) =
        read_objects(&vec![object("a.65o", first), object("b.65o", second)]).unwrap();
    let inner = sections[1].labels[1];
    assert_eq!((inner.offset, inner.scope_start, inner.scope_end), (4, 3, 7));
}

#[test]
fn files_are_read_before_the_script() {
    let bad = Input { name: b"a.bin".to_vec(), bytes: Vec::new() };
    assert_eq!(
        Linker::new(b"text text\n", &vec![bad]).unwrap_err(),
        LinkError::WrongExtension { file: 0 }
    );
    let err = Linker::new(b"\n\n// note\ntext ?\n", &Vec::new()).unwrap_err();
    match err {
        LinkError::Script { failure } => {
            assert_eq!(failure.error, ScriptError::UnrecognizedToken);
            assert_eq!((failure.line, failure.start, failure.end), (4, 15, 16));
        }
        other => panic!("{:?}", other),
    }
}

#[test]
fn linking_nothing_gives_an_empty_image() {
    let image = link(b"", Vec::new()).unwrap();
    assert_eq!((image.origin, image.bytes.len(), image.symbols.len()), (0, 0, 0));
    let image = link(b"0x4000 text\n", vec![object("a.65o", b"nop\n")]).unwrap();
    assert_eq!((image.origin, image.bytes.len()), (0, 0));
}

#[test]
fn global_labels_become_symbols() {
    let src = b"sct text\nmain nop\n!! .entry nop\n.local nop\n!mine nop\nlast\n";
    let image = link(b"0x8000 text\n", vec![object("a.65o", src)]).unwrap();
    assert_eq!(
        image.symbols,
        vec![
            Symbol { name: full(b"main", None), address: 0x8000 },
            Symbol { name: full(b"main", Some(b"entry")), address: 0x8001 },
            Symbol { name: full(b"last", None), address: 0x8004 },
        ]
    );
    let table = create_symtab(&image.symbols);
    assert_eq!(read_symtab(&table).unwrap(), image.symbols);
}

#[test]
fn errors_have_their_text() {
    assert_eq!(ObjectError::Truncated.message(), "the file ends inside a record");
    assert_eq!(
        ObjectError::BadReference.message(),
        "a reference starts behind the end of its section"
    );
    assert_eq!(ScriptError::UnrecognizedToken.message(), "unrecognized token");
    assert_eq!(
        ScriptError::DuplicateSection.message(),
        "section listed multiple times in the linker script"
    );
    assert_eq!(ScriptError::ExpectedEol.message(), "expected end of line after group size");
    assert_eq!(LinkError::WrongExtension { file: 0 }.message(), "file has wrong extension");
    assert_eq!(
        LinkError::BadFile { file: 0, error: ObjectError::BadName }.message(),
        "a name is not ASCII text"
    );
    assert_eq!(
        LinkError::DuplicateSymbol { name: full(b"io", None) }.message(),
        "appears multiple times in the symbol tables"
    );
    assert_eq!(
        LinkError::BranchOutOfRange { name: full(b"l", None) }.message(),
        "the branch to the label is out of range"
    );
    assert_eq!(
        LinkError::ReferenceOutside { name: full(b"l", None) }.message(),
        "the reference does not lie inside its section"
    );
    assert_eq!(ScriptError::DuplicateSection.before(), "section ");
    assert_eq!(
        ScriptError::DuplicateSection.after(),
        " listed multiple times in the linker script"
    );
    assert_eq!(ScriptError::UnrecognizedToken.before(), "unrecognized token ");
    assert_eq!(ScriptError::UnrecognizedToken.after(), "");
    assert_eq!(
        ScriptError::ExpectedEol.before(),
        "expected end of line after group size, found "
    );
    assert_eq!(ScriptError::ExpectedEol.after(), "");
    let failure = read_script(b"a a").unwrap_err();
    assert_eq!(
        LinkError::Script { failure }.message(),
        "section listed multiple times in the linker script"
    );
}

#[test]
fn name_fields_give_their_text() {
    assert_eq!(name_text(&full(b"main", Some(b"loop"))), b"main.loop".to_vec());
    assert_eq!(name_text(&make_name(b"data")), b"data".to_vec());
    assert_eq!(name_text(&[0u8; 32]), Vec::<u8>::new());
    assert_eq!(name_text(&[b'a', 0, b'b']), vec![b'a']);
    assert_eq!(name_text(&[b'a', b'b']), vec![b'a', b'b']);
}
