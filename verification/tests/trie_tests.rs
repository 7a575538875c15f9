use rsgbasm::lexer::Keyword;
use rsgbasm::trie::KeywordTrie;
use rsgbasm::trie::build_keywords;

fn chars(s: &str) -> Vec<char> {
    s.chars().collect()
}

#[test]
fn trie_classifies_every_reserved_spelling() {
    let t = build_keywords();
    let cases: Vec<(&str, Keyword)> = vec![
        ("adc", Keyword::Adc),
        ("add", Keyword::Add),
        ("and", Keyword::And),
        ("bit", Keyword::Bit),
        ("call", Keyword::Call),
        ("cp", Keyword::Cp),
        ("dec", Keyword::Dec),
        ("di", Keyword::Di),
        ("ei", Keyword::Ei),
        ("halt", Keyword::Halt),
        ("inc", Keyword::Inc),
        ("jp", Keyword::Jp),
        ("jr", Keyword::Jr),
        ("ld", Keyword::Ld),
        ("ldh", Keyword::Ldh),
        ("nop", Keyword::Nop),
        ("or", Keyword::Or),
        ("pop", Keyword::Pop),
        ("push", Keyword::Push),
        ("res", Keyword::Res),
        ("ret", Keyword::Ret),
        ("rst", Keyword::Rst),
        ("sbc", Keyword::Sbc),
        ("sub", Keyword::Sub),
        ("xor", Keyword::Xor),
        ("a", Keyword::A),
        ("b", Keyword::B),
        ("c", Keyword::C),
        ("d", Keyword::D),
        ("e", Keyword::E),
        ("h", Keyword::H),
        ("l", Keyword::L),
        ("af", Keyword::Af),
        ("bc", Keyword::Bc),
        ("de", Keyword::De),
        ("hl", Keyword::Hl),
        ("sp", Keyword::Sp),
        ("db", Keyword::Db),
        ("ds", Keyword::Ds),
        ("dw", Keyword::Dw),
        ("equ", Keyword::Equ),
        ("equs", Keyword::Equs),
        ("export", Keyword::Export),
        ("section", Keyword::Section),
        ("set", Keyword::SetDir),
    ];
    for (sp, kw) in cases {
        assert_eq!(t.lookup(&chars(sp)), Some(kw), "spelling {}", sp);
        let upper: String = sp.to_uppercase();
        assert_eq!(t.lookup(&chars(&upper)), Some(kw), "spelling {}", upper);
    }
}

#[test]
fn trie_rejects_non_keywords() {
    let t = build_keywords();
    assert_eq!(t.lookup(&chars("myLabel")), None);
    assert_eq!(t.lookup(&chars("ldx")), None);
    assert_eq!(t.lookup(&chars("equ2")), None);
    assert_eq!(t.lookup(&chars("")), None);
    assert_eq!(t.lookup(&chars("e q u")), None);
    assert_eq!(t.lookup(&chars("ekwu")), None);
}

#[test]
fn trie_prefixes_are_not_keywords_unless_registered() {
    let t = build_keywords();
    // "se" and "sec" are prefixes of "section" but not reserved themselves
    assert_eq!(t.lookup(&chars("se")), None);
    assert_eq!(t.lookup(&chars("sec")), None);
    assert_eq!(t.lookup(&chars("section")), Some(Keyword::Section));
}

#[test]
fn trie_traversal_visits_each_node_exactly_once() {
    let t = build_keywords();
    let n = t.count_nodes();
    let mut visited = t.traverse();
    assert_eq!(visited.len(), n);
    visited.sort();
    for (i, v) in visited.iter().enumerate() {
        assert_eq!(*v, i);
    }
}

#[test]
fn trie_traversal_exact_on_small_trie() {
    let mut t = KeywordTrie::new();
    t.insert(&chars("ab"), Keyword::Ld);
    t.insert(&chars("aa"), Keyword::Nop);
    t.insert(&chars("b"), Keyword::Halt);
    let n = t.count_nodes();
    let mut visited = t.traverse();
    assert_eq!(visited.len(), n);
    visited.sort();
    for (i, v) in visited.iter().enumerate() {
        assert_eq!(*v, i);
    }
}

#[test]
fn insert_is_last_write_wins_and_local() {
    let mut t = KeywordTrie::new();
    t.insert(&chars("ab"), Keyword::Ld);
    t.insert(&chars("abc"), Keyword::Nop);
    assert_eq!(t.lookup(&chars("ab")), Some(Keyword::Ld));
    assert_eq!(t.lookup(&chars("abc")), Some(Keyword::Nop));
    assert_eq!(t.lookup(&chars("a")), None);
    t.insert(&chars("ab"), Keyword::Halt);
    assert_eq!(t.lookup(&chars("ab")), Some(Keyword::Halt));
    assert_eq!(t.lookup(&chars("abc")), Some(Keyword::Nop));
    assert_eq!(t.lookup(&chars("AB")), Some(Keyword::Halt));
}
