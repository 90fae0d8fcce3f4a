use wavefront_obj::{read_obj, CallbackResult, ElementIterator, Error, ErrorType, Importer};

struct TestImporter {
    panic_on_error: bool,

    comments: Vec<String>,
    errors: Vec<usize>,
    error_types: Vec<ErrorType>,

    verts: Vec<(f32, f32, f32, Option<f32>)>,
    uvs: Vec<(f32, f32, Option<f32>)>,

    faces: Vec<Vec<u32>>,
    calls: usize,
}

impl TestImporter {
    fn new(panic_on_error: bool) -> TestImporter {
        TestImporter {
            panic_on_error,
            comments: Vec::new(),
            errors: Vec::new(),
            error_types: Vec::new(),
            verts: Vec::new(),
            uvs: Vec::new(),
            faces: Vec::new(),
            calls: 0,
        }
    }
}

impl Importer<f32, u32> for TestImporter {
    fn parse_real(&self, word: &str) -> Option<f32> {
        word.parse().ok()
    }

    fn comment(&mut self, line: &str) -> CallbackResult {
        self.calls += 1;
        self.comments.push(line.to_string());
        CallbackResult::Continue
    }

    fn error(&mut self, error: Error) -> CallbackResult {
        self.calls += 1;
        if self.panic_on_error {
            panic!()
        } else {
            self.errors.push(error.line.number);
            self.error_types.push(error.error);
            CallbackResult::Continue
        }
    }

    fn v(&mut self, x: f32, y: f32, z: f32, w: Option<f32>) -> CallbackResult {
        self.calls += 1;
        self.verts.push((x, y, z, w));
        CallbackResult::Continue
    }

    fn vt(&mut self, u: f32, v: f32, w: Option<f32>) -> CallbackResult {
        self.calls += 1;
        self.uvs.push((u, v, w));
        CallbackResult::Continue
    }

    fn f(&mut self, mut iter: ElementIterator<u32>) -> CallbackResult {
        self.calls += 1;
        let mut face = Vec::new();
        while let Some(v) = iter.next() {
            face.push(v);
        }
        self.faces.push(face);
        CallbackResult::Continue
    }
}

fn run(input: &str, panic_on_error: bool) -> TestImporter {
    let mut importer = TestImporter::new(panic_on_error);
    read_obj(input, &mut importer);
    importer
}

#[test]
fn triangle() {
    let input = r"
v 0 0 0
v 1 0 0
v 0 1 0
f 1 2 3
";
    let mut importer = TestImporter::new(true);
    read_obj(input, &mut importer);
    assert!(
        importer.verts
            == vec!(
                (0.0, 0.0, 0.0, None),
                (1.0, 0.0, 0.0, None),
                (0.0, 1.0, 0.0, None)
            )
    );
    assert!(importer.faces == vec!(vec!(0, 1, 2)));
}

#[test]
fn errors() {
    let input = r"invalid
invalid
";
    let mut importer = TestImporter::new(false);
    read_obj(input, &mut importer);
    assert!(importer.errors == vec!(1, 2));
}

#[test]
fn comment() {
    let mut importer = TestImporter::new(true);
    read_obj("#comment", &mut importer);
    assert!(importer.comments.len() == 1);
    assert!(importer.comments[0].as_str() == "comment");
}

#[test]
fn test_invalid_vert() {
    let mut importer = TestImporter::new(false);
    read_obj("v 0 0", &mut importer);
    assert!(importer.errors.len() == 1);
    assert!(importer.verts.is_empty());
}

#[test]
fn test_vt() {
    let mut importer = TestImporter::new(true);
    read_obj("vt 1 2", &mut importer);
    assert!(importer.uvs == vec!((1.0, 2.0, None)));
}

#[test]
fn vertex_arity() {
    let few = run("v 0 0", false);
    assert!(few.verts.is_empty());
    assert_eq!(few.errors, vec![1]);
    assert_eq!(few.error_types, vec![ErrorType::NotEnoughVertexComponents]);

    let many = run("v 0 0 0 0 0", false);
    assert!(many.verts.is_empty());
    assert_eq!(many.errors, vec![1]);
    assert_eq!(many.error_types, vec![ErrorType::TooManyVertexComponents]);

    let three = run("v 0 0 0", true);
    assert_eq!(three.verts, vec![(0.0, 0.0, 0.0, None)]);

    let four = run("v 0 0 0 0", true);
    assert_eq!(four.verts, vec![(0.0, 0.0, 0.0, Some(0.0))]);
}

#[test]
fn unreadable_component_is_not_enough() {
    let r = run("v 1 x 3", false);
    assert!(r.verts.is_empty());
    assert_eq!(r.error_types, vec![ErrorType::NotEnoughVertexComponents]);
}

#[test]
fn unreadable_optional_component_is_dropped() {
    let r = run("v 1 2 3 x", true);
    assert_eq!(r.verts, vec![(1.0, 2.0, 3.0, None)]);
}

#[test]
fn texture_coordinate_arity() {
    assert_eq!(run("vt 1 2 3", true).uvs, vec![(1.0, 2.0, Some(3.0))]);
    let many = run("vt 1 2 3 4", false);
    assert!(many.uvs.is_empty());
    assert_eq!(many.error_types, vec![ErrorType::TooManyVertexComponents]);
    let few = run("vt 1", false);
    assert!(few.uvs.is_empty());
    assert_eq!(few.error_types, vec![ErrorType::NotEnoughVertexComponents]);
}

#[test]
fn face_indices_are_zero_based_in_order() {
    let r = run("v 0 0 0\nv 1 0 0\nv 0 1 0\nf 1 2 3\n", true);
    assert_eq!(r.faces, vec![vec![0, 1, 2]]);
    assert_eq!(
        r.verts,
        vec![(0.0, 0.0, 0.0, None), (1.0, 0.0, 0.0, None), (0.0, 1.0, 0.0, None)]
    );
}

#[test]
fn face_decoding_stops_at_first_bad_word() {
    assert_eq!(run("f 1 2 x 4", true).faces, vec![vec![0, 1]]);
    assert_eq!(run("f 0 1", true).faces, vec![Vec::<u32>::new()]);
    assert_eq!(run("f -1", true).faces, vec![Vec::<u32>::new()]);
    assert_eq!(run("f", true).faces, vec![Vec::<u32>::new()]);
}

#[test]
fn face_index_bounds() {
    assert_eq!(run("f 4294967295", true).faces, vec![vec![4294967294]]);
    assert_eq!(run("f 4294967296", true).faces, vec![Vec::<u32>::new()]);
    assert_eq!(run("f +3 007", true).faces, vec![vec![2, 6]]);
}

#[test]
fn comment_isolation() {
    let r = run("# hello", true);
    assert_eq!(r.comments, vec![" hello".to_string()]);
    assert!(r.errors.is_empty());
    assert!(r.verts.is_empty());
    assert_eq!(r.calls, 1);
}

#[test]
fn comment_line_never_errors() {
    let r = run("#v 1\n# f x y z\n", true);
    assert_eq!(r.comments, vec!["v 1".to_string(), " f x y z".to_string()]);
}

#[test]
fn invalid_tag_recovery() {
    let r = run("invalid\ninvalid\n", false);
    assert_eq!(r.errors, vec![1, 2]);
    assert_eq!(r.error_types, vec![ErrorType::InvalidName, ErrorType::InvalidName]);
    assert!(r.verts.is_empty());
    assert!(r.faces.is_empty());
    assert!(r.comments.is_empty());
}

#[test]
fn normal_tag_is_not_read() {
    let r = run("vn 0 0 1", false);
    assert_eq!(r.error_types, vec![ErrorType::InvalidName]);
}

#[test]
fn one_callback_per_line() {
    let input = "# c\nv 1 2 3\n\nvt 1 2\nf 1 2 3\nbad\nv 1\n   \n";
    let r = run(input, false);
    assert_eq!(r.calls, 6);
    assert_eq!(r.comments.len(), 1);
    assert_eq!(r.verts.len(), 1);
    assert_eq!(r.uvs.len(), 1);
    assert_eq!(r.faces.len(), 1);
    assert_eq!(r.errors, vec![6, 7]);
}

#[test]
fn crlf_line_endings() {
    let r = run("#a\r\nv 1 2 3\r\nbad\r\n", false);
    assert_eq!(r.comments, vec!["a".to_string()]);
    assert_eq!(r.verts, vec![(1.0, 2.0, 3.0, None)]);
    assert_eq!(r.errors, vec![3]);
}

struct StopAfterFirst {
    seen: usize,
}

impl Importer<f32, u32> for StopAfterFirst {
    fn parse_real(&self, word: &str) -> Option<f32> {
        word.parse().ok()
    }

    fn v(&mut self, _x: f32, _y: f32, _z: f32, _w: Option<f32>) -> CallbackResult {
        self.seen += 1;
        CallbackResult::Stop
    }
}

#[test]
fn stop_ends_reading() {
    let mut importer = StopAfterFirst { seen: 0 };
    let read = read_obj("\nv 1 2 3\nv 4 5 6\n", &mut importer);
    assert_eq!(importer.seen, 1);
    assert_eq!(read.lines, 2);
    assert!(read.stopped);
}

#[test]
fn lines_read_without_stop() {
    let mut importer = StopAfterFirst { seen: 0 };
    let read = read_obj("a\n\nb", &mut importer);
    assert_eq!(read.lines, 3);
    assert!(!read.stopped);
    assert_eq!(read_obj("", &mut importer).lines, 0);
    assert_eq!(importer.seen, 0);
}
