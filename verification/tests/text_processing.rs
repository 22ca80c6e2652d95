use pawliki::rewrite::{get_phrases, get_words, is_goto, reflect, transform};
use pawliki::script::{Reflection, Transform};
use pawliki::text::{
    chars_of, decimal_exec, parse_u16_exec, parse_usize_exec, replace_exec, scrub_exec, split_words,
    string_of, trim_exec,
};

fn s(x: &str) -> String {
    x.to_string()
}

fn cv(x: &str) -> Vec<char> {
    x.chars().collect()
}

#[test]
fn words_split_on_any_whitespace() {
    assert_eq!(get_words("  hello \t big\nworld  "), vec![s("hello"), s("big"), s("world")]);
    assert_eq!(get_words(""), Vec::<String>::new());
    assert_eq!(get_words("   "), Vec::<String>::new());
    assert_eq!(get_words("one"), vec![s("one")]);
    // a no-break space is whitespace too
    assert_eq!(get_words("a\u{a0}b"), vec![s("a"), s("b")]);
}

#[test]
fn phrases_split_at_but_and_punctuation() {
    assert_eq!(
        get_phrases("i like cats but i hate dogs. really, why?"),
        vec![s("i like cats"), s("i hate dogs"), s("really"), s("why"), s("")]
    );
    assert_eq!(get_phrases(""), vec![s("")]);
    assert_eq!(get_phrases("but nothing"), vec![s("but nothing")]);
    assert_eq!(get_phrases("a but b but c"), vec![s("a"), s("b"), s("c")]);
}

#[test]
fn replace_is_left_to_right_without_overlap() {
    assert_eq!(replace_exec(&cv("aaaa"), &cv("aa"), &cv("b")), cv("bb"));
    assert_eq!(replace_exec(&cv("abcabc"), &cv("bc"), &cv("X")), cv("aXaX"));
    assert_eq!(replace_exec(&cv("abc"), &cv("z"), &cv("X")), cv("abc"));
    // an empty pattern matches between every two characters and at both ends
    assert_eq!(replace_exec(&cv("abc"), &cv(""), &cv("x")), cv("xaxbxcx"));
    assert_eq!(replace_exec(&cv(""), &cv(""), &cv("x")), cv("x"));
}

#[test]
fn trim_and_split_words_on_chars() {
    assert_eq!(trim_exec(&cv("  a b  ")), cv("a b"));
    assert_eq!(trim_exec(&cv("   ")), cv(""));
    assert_eq!(split_words(&cv(" x  y ")), vec![cv("x"), cv("y")]);
    assert_eq!(string_of(&chars_of("héllo")), s("héllo"));
}

#[test]
fn scrub_keeps_the_alphabet() {
    assert_eq!(scrub_exec(&cv("$2?"), true), cv("2"));
    assert_eq!(scrub_exec(&cv("(.*@family)"), false), cv("family"));
    assert_eq!(scrub_exec(&cv("a1-b2"), false), cv("ab"));
    assert_eq!(scrub_exec(&cv("a1-b2"), true), cv("a1b2"));
}

#[test]
fn numbers_parse_as_std_does() {
    for t in ["0", "7", "42", "+5", "18446744073709551615", "", "+", "-1", "1a", "99999999999999999999"] {
        assert_eq!(parse_usize_exec(&cv(t)), t.parse::<usize>().ok(), "{}", t);
    }
    for t in ["0", "65535", "65536", "12", "x"] {
        assert_eq!(parse_u16_exec(&cv(t)), t.parse::<u16>().ok(), "{}", t);
    }
    for n in [0usize, 9, 10, 123, usize::MAX] {
        assert_eq!(decimal_exec(n), cv(&n.to_string()));
    }
}

#[test]
fn transforms_apply_in_order() {
    let ts = vec![
        Transform { word: s("remember"), equivalents: vec![s("recollect"), s("recall")] },
        Transform { word: s("mom"), equivalents: vec![s("mother")] },
    ];
    assert_eq!(transform("i recall my mother", &ts), s("i remember my mom"));
    assert_eq!(transform("nothing here", &ts), s("nothing here"));
}

#[test]
fn reflections_swap_words() {
    let rs = vec![
        Reflection { word: s("i"), inverse: s("you"), twoway: true },
        Reflection { word: s("my"), inverse: s("your"), twoway: true },
        Reflection { word: s("am"), inverse: s("are"), twoway: false },
    ];
    assert_eq!(reflect("i am sad about my dog", &rs), s("you are sad about your dog"));
    assert_eq!(reflect("you are kind", &rs), s("i are kind"));
    assert_eq!(reflect("  spaced   out  ", &rs), s("spaced out"));
    assert_eq!(reflect("", &rs), s(""));
}

#[test]
fn goto_statements() {
    assert_eq!(is_goto("GOTO why"), Some(s("why")));
    assert_eq!(is_goto(" GOTO  what is "), Some(s("whatis")));
    assert_eq!(is_goto("Why do you ask?"), None);
}

#[test]
fn transforms_replace_whole_words_only() {
    let ts = vec![Transform { word: s("mom"), equivalents: vec![s("mum")] }];
    assert_eq!(transform("mum said mumble", &ts), s("mom said mumble"));
    // whitespace between words is kept as it is
    assert_eq!(transform("  mum\tand  mum ", &ts), s("  mom\tand  mom "));
    // transforms apply in turn, so one may feed the next
    let chain = vec![
        Transform { word: s("b"), equivalents: vec![s("a")] },
        Transform { word: s("c"), equivalents: vec![s("b")] },
    ];
    assert_eq!(transform("a b x", &chain), s("c c x"));
}

#[test]
fn each_transform_works_on_the_text_the_previous_left() {
    let first = Transform { word: s("y z"), equivalents: vec![s("x")] };
    let second = Transform { word: s("w"), equivalents: vec![s("y")] };
    let both = vec![
        Transform { word: s("y z"), equivalents: vec![s("x")] },
        Transform { word: s("w"), equivalents: vec![s("y")] },
    ];
    assert_eq!(transform("x", &both), s("w z"));
    let once = transform("x", &vec![first]);
    assert_eq!(transform(&once, &vec![second]), s("w z"));
    // no transforms change nothing
    assert_eq!(transform(" a  b ", &vec![]), s(" a  b "));
}

#[test]
fn reflecting_twice_gives_the_words_back() {
    let rs = vec![
        Reflection { word: s("i"), inverse: s("you"), twoway: true },
        Reflection { word: s("my"), inverse: s("your"), twoway: true },
    ];
    let once = reflect("  i love   my cat ", &rs);
    assert_eq!(once, s("you love your cat"));
    assert_eq!(reflect(&once, &rs), s("i love my cat"));
}
