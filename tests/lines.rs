use wavefront_obj::index::decode_one_based;
use wavefront_obj::text::{chars_of, split_words};
use wavefront_obj::{
    line_record, tex_coord_record, vertex_record, ErrorType, FaceIndex, Importer,
    Line, LineReader, Record,
};

struct Words;

impl Importer<i64, u32> for Words {
    fn parse_real(&self, word: &str) -> Option<i64> {
        word.parse().ok()
    }
}

fn line(text: &str, number: usize) -> Line {
    Line { text: text.to_string(), number }
}

fn read_lines(text: &str) -> Vec<(String, usize)> {
    let mut reader = LineReader::new(text);
    let mut out = Vec::new();
    while let Some(l) = reader.next_line() {
        out.push((l.text, l.number));
    }
    out
}

#[test]
fn line_reader_splits_and_numbers() {
    assert_eq!(
        read_lines("a\n\nb\r\nc\rd\n"),
        vec![
            ("a".to_string(), 1),
            (String::new(), 2),
            ("b".to_string(), 3),
            ("c\rd".to_string(), 4)
        ]
    );
    assert_eq!(read_lines("x"), vec![("x".to_string(), 1)]);
    assert_eq!(read_lines("x\r"), vec![("x\r".to_string(), 1)]);
    assert!(read_lines("").is_empty());
    assert_eq!(read_lines("\n"), vec![(String::new(), 1)]);
}

#[test]
fn words_split_on_any_whitespace() {
    let words = split_words(&chars_of("  ab\tc \u{3000}d\n"));
    assert_eq!(words, vec!["ab".to_string(), "c".to_string(), "d".to_string()]);
    assert!(split_words(&chars_of(" \t ")).is_empty());
}

#[test]
fn one_based_decoding() {
    assert_eq!(decode_one_based("1", 10), Some(0));
    assert_eq!(decode_one_based("10", 10), Some(9));
    assert_eq!(decode_one_based("11", 10), None);
    assert_eq!(decode_one_based("0", 10), None);
    assert_eq!(decode_one_based("+", 10), None);
    assert_eq!(decode_one_based("", 10), None);
    assert_eq!(decode_one_based("1a", 10), None);
    assert_eq!(decode_one_based("18446744073709551615", u64::MAX), Some(u64::MAX - 1));
    assert_eq!(decode_one_based("18446744073709551616", u64::MAX), None);
    assert_eq!(<u64 as FaceIndex>::decode("5"), Some(4));
    assert_eq!(<usize as FaceIndex>::decode("+2"), Some(1));
    assert_eq!(<u32 as FaceIndex>::decode("x"), None);
    assert_eq!(<u8 as FaceIndex>::decode("255"), Some(254));
    assert_eq!(<u8 as FaceIndex>::decode("256"), None);
    assert_eq!(<u16 as FaceIndex>::decode("65535"), Some(65534));
    assert_eq!(<u16 as FaceIndex>::decode("65536"), None);
}

#[test]
fn vertex_record_outcomes() {
    let r: Record<i64, u32> = vertex_record(line("v", 4), 3, Some(1), Some(2), Some(3), Some(9));
    assert!(matches!(r, Record::V(1, 2, 3, None)));
    let r: Record<i64, u32> = vertex_record(line("v", 4), 4, Some(1), Some(2), Some(3), Some(9));
    assert!(matches!(r, Record::V(1, 2, 3, Some(9))));
    let r: Record<i64, u32> = vertex_record(line("v a", 4), 5, Some(1), Some(2), Some(3), None);
    match r {
        Record::Error(e) => {
            assert_eq!(e.error, ErrorType::TooManyVertexComponents);
            assert_eq!(e.line, line("v a", 4));
        }
        _ => panic!("expected an error"),
    }
    let r: Record<i64, u32> = vertex_record(line("v", 1), 3, Some(1), None, Some(3), None);
    assert!(matches!(r, Record::Error(e) if e.error == ErrorType::NotEnoughVertexComponents));
}

#[test]
fn tex_coord_record_outcomes() {
    let r: Record<i64, u32> = tex_coord_record(line("vt", 1), 2, Some(1), Some(2), Some(7));
    assert!(matches!(r, Record::Vt(1, 2, None)));
    let r: Record<i64, u32> = tex_coord_record(line("vt", 1), 3, Some(1), Some(2), Some(7));
    assert!(matches!(r, Record::Vt(1, 2, Some(7))));
    let r: Record<i64, u32> = tex_coord_record(line("vt", 1), 1, Some(1), None, None);
    assert!(matches!(r, Record::Error(e) if e.error == ErrorType::NotEnoughVertexComponents));
}

#[test]
fn line_records() {
    let r = line_record(&Words, line("v 1 2 3", 1));
    assert!(matches!(r, Some(Record::V(1, 2, 3, None))));
    let r = line_record(&Words, line("v  1\t2 3 4", 1));
    assert!(matches!(r, Some(Record::V(1, 2, 3, Some(4)))));
    let r = line_record(&Words, line("vt 5 6", 1));
    assert!(matches!(r, Some(Record::Vt(5, 6, None))));
    let r = line_record(&Words, line("v 1 2 3 4 5", 2));
    assert!(matches!(r, Some(Record::Error(ref e)) if e.error == ErrorType::TooManyVertexComponents));
    let r = line_record(&Words, line("  ", 1));
    assert!(r.is_none());
    let r = line_record(&Words, line("#x", 1));
    assert!(matches!(r, Some(Record::Comment(ref s)) if s == "x"));
    let r = line_record(&Words, line("f 3 1", 1));
    match r {
        Some(Record::F(mut it)) => {
            assert_eq!(it.next(), Some(2));
            assert_eq!(it.next(), Some(0));
            assert_eq!(it.next(), None);
            assert_eq!(it.next(), None);
        }
        _ => panic!("expected a face"),
    }
    let r = line_record(&Words, line("foo 1", 7));
    assert!(matches!(r, Some(Record::Error(ref e)) if e.error == ErrorType::InvalidName && e.line.number == 7));
}
