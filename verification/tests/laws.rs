use snep::node::Node;
use snep::writer::render_doc;

struct Segment {
    chunk: Vec<u8>,
    divided: bool,
    word: Vec<u8>,
    delimiter: u8,
}

fn is_word(c: u8) -> bool {
    !(c == b' ' || (9..14).contains(&c) || c == b'|' || c == b'\\' || b"()[]{}".contains(&c))
}

fn opener_of(c: u8) -> u8 {
    match c {
        b')' => b'(',
        b']' => b'[',
        b'}' => b'{',
        other => other,
    }
}

fn cut(s: &[u8]) -> (Vec<Segment>, Vec<u8>) {
    let mut segments = Vec::new();
    let mut pos = 0;
    while let Some(offset) = s[pos..].iter().position(|c| b"()[]{}".contains(c)) {
        let d = pos + offset;
        let mut w = d;
        while w > pos {
            if s[w - 1] == b'\\' {
                w -= 1;
                break;
            }
            if !is_word(s[w - 1]) {
                break;
            }
            w -= 1;
        }
        let divided = w > pos && s[w - 1] == b'|';
        let c = if divided { w - 1 } else { w };
        segments.push(Segment {
            chunk: s[pos..c].to_vec(),
            divided,
            word: s[w..d].to_vec(),
            delimiter: s[d],
        });
        pos = d + 1;
    }
    (segments, s[pos..].to_vec())
}

struct Verdict {
    well_formed: bool,
    steady: bool,
    needed: bool,
    exact: bool,
    normal: Vec<u8>,
}

fn judge(s: &[u8]) -> Verdict {
    let (segments, rest) = cut(s);
    let mut open: Vec<(Vec<u8>, u8)> = Vec::new();
    let mut v = Verdict {
        well_formed: true,
        steady: true,
        needed: true,
        exact: true,
        normal: Vec::new(),
    };
    for seg in segments {
        let swallowed = match open.last() {
            Some((name, _)) => name.first() == Some(&b'\\') && *name != seg.word,
            None => false,
        };
        let opens = b"([{".contains(&seg.delimiter);
        let sticky = seg.chunk.last().map_or(false, |c| is_word(*c));
        let wanted = !swallowed && opens && sticky;
        v.needed &= !seg.divided || wanted;
        v.exact &= seg.divided == wanted;
        v.normal.extend_from_slice(&seg.chunk);
        if wanted {
            v.normal.push(b'|');
        }
        v.normal.extend_from_slice(&seg.word);
        v.normal.push(seg.delimiter);
        if swallowed {
            continue;
        }
        if opens {
            open.push((seg.word, seg.delimiter));
        } else {
            match open.pop() {
                Some((_, opener)) => {
                    v.well_formed &= opener == opener_of(seg.delimiter);
                    v.steady &= opener == opener_of(seg.delimiter);
                }
                None => {
                    v.well_formed = false;
                    v.steady &= seg.delimiter == b')';
                }
            }
        }
    }
    v.well_formed &= open.is_empty();
    v.steady &= open.is_empty();
    v.normal.extend_from_slice(&rest);
    v
}

fn written(s: &[u8]) -> (Vec<u8>, usize) {
    let (nodes, errs) = Node::parse(s, "f");
    (render_doc(&nodes), errs.len())
}

fn texts(alphabet: &[u8], longest: usize) -> Vec<Vec<u8>> {
    let mut all = vec![Vec::new()];
    let mut from = 0;
    for _ in 0..longest {
        let upto = all.len();
        for i in from..upto {
            for c in alphabet {
                let mut next = all[i].clone();
                next.push(*c);
                all.push(next);
            }
        }
        from = upto;
    }
    all
}

fn check_all(alphabet: &[u8], longest: usize) -> (usize, usize, usize) {
    let mut round_trips = 0;
    let mut idempotent = 0;
    let mut clean = 0;
    for s in texts(alphabet, longest) {
        let v = judge(&s);
        let (once, repairs) = written(&s);
        let shown = String::from_utf8_lossy(&s).into_owned();
        assert_eq!(repairs == 0, v.well_formed, "text {:?}", shown);
        if v.well_formed {
            clean += 1;
            assert!(v.steady);
        }
        if v.steady {
            assert_eq!(once, v.normal, "text {:?}", shown);
        }
        if v.exact {
            assert!(v.needed);
        }
        assert_eq!(once == s && repairs == 0, v.well_formed && v.exact, "text {:?}", shown);
        assert_eq!(once == s, v.steady && v.exact, "text {:?}", shown);
        if v.well_formed && v.exact {
            round_trips += 1;
        }
        let settled = judge(&once);
        let (twice, _) = written(&once);
        assert_eq!(twice == once, settled.steady && settled.exact, "text {:?}", shown);
        if v.steady && v.needed {
            assert!(settled.steady && settled.exact, "text {:?}", shown);
            assert_eq!(settled.well_formed, v.well_formed);
        }
        if v.well_formed && v.needed {
            idempotent += 1;
        }
    }
    (clean, idempotent, round_trips)
}

#[test]
fn laws_hold_of_every_short_text() {
    let (clean, idempotent, round_trips) = check_all(b"a |\\()[]", 5);
    assert!(round_trips > 1000);
    assert!(idempotent > round_trips);
    assert!(clean > idempotent);
}

#[test]
fn laws_hold_of_every_short_text_with_literal_names() {
    let (clean, idempotent, round_trips) = check_all(b"x\\|()", 7);
    assert!(round_trips > 1000);
    assert!(idempotent > round_trips);
    assert!(clean > idempotent);
}

#[test]
fn laws_hold_of_every_short_text_with_white_space() {
    let (clean, idempotent, round_trips) = check_all(b"ab\n\t|{}", 5);
    assert!(round_trips > 1000);
    assert!(idempotent == round_trips);
    assert!(clean > idempotent);
}

#[test]
fn writing_is_not_idempotent_on_every_text() {
    let mut failures = 0;
    for s in texts(b"a|\\()", 5) {
        let (once, _) = written(&s);
        let (twice, _) = written(&once);
        if twice != once {
            failures += 1;
            let v = judge(&s);
            assert!(!(v.steady && v.needed));
        }
    }
    assert!(failures > 0);
    assert_ne!(written(b"||a()").0, written(&written(b"||a()").0).0);
    assert_eq!(written(b"a\\|b()").0, b"a\\b()");
    assert_ne!(written(b"a\\b()").0, b"a\\b()");
}

#[test]
fn a_well_formed_text_is_read_without_a_repair() {
    for s in ["", "a", "a(b)", "a(b[c]{d})", "\\x((\\x)", "\\x(a)b\\x)"] {
        assert!(judge(s.as_bytes()).well_formed);
        assert_eq!(written(s.as_bytes()).1, 0, "text {:?}", s);
    }
    for s in [")", "a(", "a(b]", "(]", "\\x(a)", "a)b(", "\\x(\\x]"] {
        assert!(!judge(s.as_bytes()).well_formed);
        assert!(written(s.as_bytes()).1 > 0, "text {:?}", s);
    }
}

#[test]
fn a_stray_closing_parenthesis_is_written_as_it_stands() {
    for s in ["x)", ")", "a(b)c)d", "a b) x|c(d)", "\\x(a)\\x))"] {
        let v = judge(s.as_bytes());
        assert!(v.steady && v.exact && !v.well_formed, "text {:?}", s);
        let (once, repairs) = written(s.as_bytes());
        assert!(repairs > 0);
        assert_eq!(once, s.as_bytes());
        assert_eq!(written(&once).0, once);
    }
    for s in ["x]", "a(b]", "a(", "x) y("] {
        assert!(!judge(s.as_bytes()).steady, "text {:?}", s);
        assert_ne!(written(s.as_bytes()).0, s.as_bytes());
    }
}
