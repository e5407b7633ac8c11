use wownow::text::bytes_eq;
use wownow::text::find_byte;
use wownow::text::lines;
use wownow::text::rsplit_once;
use wownow::text::split;
use wownow::text::split_once;
use wownow::text::str_eq;
use wownow::text::strip_prefix;
use wownow::text::substr;

const TEXTS: [&str; 24] = [
    "",
    "a",
    "|",
    "||",
    "a|b",
    "a|b|",
    "|a|b",
    "a||b",
    "us|47e9|74093||53584|10.2.5.53584|5302",
    "\n",
    "\n\n",
    "a\n",
    "a\nb",
    "a\n\nb\n",
    "a\r\nb\r\n",
    "a\r",
    "a\r\n\r",
    "\r\n",
    "a\r\r\nb",
    "one\rtwo\nthree",
    "gr\u{00fc}n|bl\u{00e4}u\n\u{65e5}\u{672c}|\u{1f600}.x",
    "## seqn = 12",
    "10.2.5.53584",
    "...",
];

#[test]
fn split_cuts_as_std_does() {
    for text in TEXTS {
        for delimiter in ['|', '.', '\n', '!'] {
            let expected: Vec<&str> = text.split(delimiter).collect();
            assert_eq!(split(text, delimiter as u8), expected, "text {:?}", text);
        }
    }
}

#[test]
fn split_makes_one_piece_more_than_delimiters() {
    assert_eq!(split("", b'|'), vec![""]);
    assert_eq!(split("agent|2118018|", b'|'), vec!["agent", "2118018", ""]);
    assert_eq!(split("||", b'|'), vec!["", "", ""]);
}

#[test]
fn lines_cuts_as_std_does() {
    for text in TEXTS {
        let expected: Vec<&str> = text.lines().collect();
        assert_eq!(lines(text), expected, "text {:?}", text);
    }
}

#[test]
fn lines_edge_cases() {
    assert_eq!(lines(""), Vec::<&str>::new());
    assert_eq!(lines("\n"), vec![""]);
    assert_eq!(lines("a\nb\n"), vec!["a", "b"]);
    assert_eq!(lines("a\nb"), vec!["a", "b"]);
    assert_eq!(lines("a\r\nb\r"), vec!["a", "b\r"]);
    assert_eq!(lines("a\n\n"), vec!["a", ""]);
}

#[test]
fn split_once_cuts_at_the_first() {
    for text in TEXTS {
        for delimiter in ['|', '.', ':', '!'] {
            assert_eq!(
                split_once(text, delimiter as u8),
                text.split_once(delimiter),
                "text {:?}",
                text
            );
        }
    }
    assert_eq!(split_once("Foo!BOGUS:0", b'!'), Some(("Foo", "BOGUS:0")));
    assert_eq!(split_once("a!b!c", b'!'), Some(("a", "b!c")));
    assert_eq!(split_once("abc", b'!'), None);
}

#[test]
fn rsplit_once_cuts_at_the_last() {
    for text in TEXTS {
        for delimiter in ['|', '.', ':', '!'] {
            assert_eq!(
                rsplit_once(text, delimiter as u8),
                text.rsplit_once(delimiter),
                "text {:?}",
                text
            );
        }
    }
    assert_eq!(rsplit_once("10.2.5.53584", b'.'), Some(("10.2.5", "53584")));
    assert_eq!(rsplit_once("53584", b'.'), None);
    assert_eq!(rsplit_once("53584.", b'.'), Some(("53584", "")));
}

#[test]
fn strip_prefix_as_std_does() {
    for text in TEXTS {
        for prefix in ["", "a", "## seqn = ", "gr\u{00fc}", "gr\u{00fc}n|", "\n"] {
            assert_eq!(strip_prefix(text, prefix), text.strip_prefix(prefix), "text {:?}", text);
        }
    }
    assert_eq!(strip_prefix("## seqn = 2119172", "## seqn = "), Some("2119172"));
    assert_eq!(strip_prefix("## seqn =2119172", "## seqn = "), None);
    assert_eq!(strip_prefix("## seqn = ", "## seqn = "), Some(""));
    assert_eq!(strip_prefix("## seqn", "## seqn = "), None);
}

#[test]
fn find_byte_finds_the_first_from_a_start() {
    let text = b"a|bc|d";
    assert_eq!(find_byte(text, 0, b'|'), 1);
    assert_eq!(find_byte(text, 1, b'|'), 1);
    assert_eq!(find_byte(text, 2, b'|'), 4);
    assert_eq!(find_byte(text, 5, b'|'), 6);
    assert_eq!(find_byte(text, 6, b'|'), 6);
    assert_eq!(find_byte(b"", 0, b'|'), 0);
}

#[test]
fn substr_takes_the_bytes_between() {
    assert_eq!(substr("Region!STRING:0", 7, 13), "STRING");
    assert_eq!(substr("Region!STRING:0", 0, 0), "");
    assert_eq!(substr("Region!STRING:0", 15, 15), "");
    assert_eq!(substr("gr\u{00fc}n", 0, 4), "gr\u{00fc}");
    assert_eq!(substr("gr\u{00fc}n", 4, 5), "n");
}

#[test]
fn equality_is_byte_for_byte() {
    assert!(bytes_eq(b"", b""));
    assert!(bytes_eq(b"Flags", b"Flags"));
    assert!(!bytes_eq(b"Flags", b"flags"));
    assert!(!bytes_eq(b"Flags", b"Flag"));
    assert!(!bytes_eq(b"Flag", b"Flags"));
    assert!(str_eq("Product", "Product"));
    assert!(!str_eq("Product", "product"));
    assert!(!str_eq("Product", "Product "));
}
