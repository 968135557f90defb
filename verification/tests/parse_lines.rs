use lorri::parse::{parse_evaluation_line, split_lines, utf8_valid, LogDatum};

fn v(s: &[u8]) -> Vec<u8> {
    s.to_vec()
}

#[test]
fn test_evaluation_line_to_path_evaluation() {
    assert_eq!(
        parse_evaluation_line(&v(
            b"evaluating file '/nix/store/zqxha3ax0w771jf25qdblakka83660gr-source/lib/systems/for-meta.nix'"
        )),
        LogDatum::Source(v(
            b"/nix/store/zqxha3ax0w771jf25qdblakka83660gr-source/lib/systems/for-meta.nix"
        ))
    );

    assert_eq!(
        parse_evaluation_line(&v(
            b"copied source '/nix/store/zqxha3ax0w771jf25qdblakka83660gr-source/pkgs/stdenv/generic/default-builder.sh' -> '/nix/store/9krlzvny65gdc8s7kpb6lkx8cd02c25b-default-builder.sh'"
        )),
        LogDatum::Source(v(
            b"/nix/store/zqxha3ax0w771jf25qdblakka83660gr-source/pkgs/stdenv/generic/default-builder.sh"
        ))
    );

    assert_eq!(
        parse_evaluation_line(&v(
            b"trace: lorri read: '/home/grahamc/projects/grahamc/lorri/nix/nixpkgs.json'"
        )),
        LogDatum::Source(v(b"/home/grahamc/projects/grahamc/lorri/nix/nixpkgs.json"))
    );

    assert_eq!(
        parse_evaluation_line(&v(
            b"trace: lorri attribute: 'shell' -> '/nix/store/q3ngidzvincycjjvlilf1z6vj1w4wnas-lorri.drv'"
        )),
        LogDatum::AttrDrv(
            v(b"shell"),
            v(b"/nix/store/q3ngidzvincycjjvlilf1z6vj1w4wnas-lorri.drv")
        )
    );

    assert_eq!(
        parse_evaluation_line(&v(
            b"downloading 'https://static.rust-lang.org/dist/channel-rust-stable.toml'..."
        )),
        LogDatum::Text(v(
            b"downloading 'https://static.rust-lang.org/dist/channel-rust-stable.toml'..."
        ))
    );
}

#[test]
fn non_utf8_line_is_text() {
    // invalid UTF-8 inside a shape that would otherwise match
    let line = v(b"evaluating file '/a\xff.nix'");
    assert!(!utf8_valid(&line));
    assert_eq!(parse_evaluation_line(&line), LogDatum::Text(line.clone()));
}

#[test]
fn utf8_validity_cases() {
    assert!(utf8_valid(&v(b"plain ascii")));
    assert!(utf8_valid(&v("päth/ü".as_bytes())));
    assert!(!utf8_valid(&v(b"\xc0\xaf"))); // overlong
    assert!(!utf8_valid(&v(b"\xed\xa0\x80"))); // surrogate
    assert!(!utf8_valid(&v(b"\xf4\x90\x80\x80"))); // above U+10FFFF
    assert!(utf8_valid(&v(b"\xf0\x9f\x98\x80"))); // U+1F600
    assert!(!utf8_valid(&v(b"\xe2\x82"))); // truncated
}

#[test]
fn empty_capture_and_near_misses() {
    assert_eq!(
        parse_evaluation_line(&v(b"evaluating file ''")),
        LogDatum::Source(v(b""))
    );
    // no closing quote
    assert_eq!(
        parse_evaluation_line(&v(b"evaluating file '/a.nix")),
        LogDatum::Text(v(b"evaluating file '/a.nix"))
    );
    // prefix alone
    assert_eq!(
        parse_evaluation_line(&v(b"evaluating file '")),
        LogDatum::Text(v(b"evaluating file '"))
    );
}

#[test]
fn copied_source_greedy_capture() {
    // the source capture is greedy: it runs to the last admissible separator
    assert_eq!(
        parse_evaluation_line(&v(b"copied source '/a' -> '/b' -> '/c'")),
        LogDatum::Source(v(b"/a' -> '/b"))
    );
}

#[test]
fn attribute_requires_store_prefix() {
    // the artifact must lie under /nix/store/
    assert_eq!(
        parse_evaluation_line(&v(b"trace: lorri attribute: 'shell' -> '/tmp/out'")),
        LogDatum::Text(v(b"trace: lorri attribute: 'shell' -> '/tmp/out'"))
    );
    assert_eq!(
        parse_evaluation_line(&v(b"trace: lorri attribute: '' -> '/nix/store/'")),
        LogDatum::AttrDrv(v(b""), v(b"/nix/store/"))
    );
}

#[test]
fn split_lines_drops_empty_lines() {
    let lines = split_lines(&v(b"/one\n\n/two\n"));
    assert_eq!(lines, vec![v(b"/one"), v(b"/two")]);
    assert_eq!(split_lines(&v(b"")), Vec::<Vec<u8>>::new());
    assert_eq!(split_lines(&v(b"no newline")), vec![v(b"no newline")]);
}

#[test]
fn attribute_name_capture_is_greedy() {
    // the name runs to the last separator that a store path follows
    assert_eq!(
        parse_evaluation_line(&v(b"trace: lorri attribute: 'a' -> 'x' -> '/nix/store/y'")),
        LogDatum::AttrDrv(v(b"a' -> 'x"), v(b"/nix/store/y"))
    );
}
