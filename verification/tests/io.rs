use best_practices::cli::io::{dir_name, reader_name, stream, writer_name, Stream};
use best_practices::error::Error;

#[test]
fn absent_path_is_the_standard_stream() {
    assert!(matches!(stream(&None), Stream::Standard));
    assert_eq!(reader_name(&None).unwrap(), "stdin");
    assert_eq!(writer_name(&None).unwrap(), "stdout");
}

#[test]
fn dash_is_the_standard_stream() {
    let dash = Some("-".to_string());
    assert!(matches!(stream(&dash), Stream::Standard));
    assert_eq!(reader_name(&dash).unwrap(), "stdin");
    assert_eq!(writer_name(&dash).unwrap(), "stdout");
}

#[test]
fn any_other_path_is_a_file() {
    for path in ["index.txt", "--", "-x", " -", ""] {
        let arg = Some(path.to_string());
        match stream(&arg) {
            Stream::File(p) => assert_eq!(p, path),
            Stream::Standard => panic!("expected a file"),
        }
        assert_eq!(reader_name(&arg).unwrap(), path);
        assert_eq!(writer_name(&arg).unwrap(), path);
    }
}

#[test]
fn directory_names() {
    assert_eq!(dir_name(&None).unwrap(), "pwd");
    assert_eq!(dir_name(&Some("some/dir".to_string())).unwrap(), "some/dir");
    assert_eq!(dir_name(&Some("-".to_string())).unwrap(), "-");
}

#[test]
fn error_messages() {
    let io = Error::IoError(std::io::Error::from(std::io::ErrorKind::NotFound));
    assert_eq!(io.message(), "io error");
    assert_eq!(Error::FmtError(std::fmt::Error).message(), "fmt error");
    assert_eq!(Error::LogError("no logger".to_string()).message(), "log error no logger");
    assert_eq!(Error::NotADir("x".to_string()).message(), "not a directory path");
    assert_eq!(Error::NotAFile("x".to_string()).message(), "not a file path");
    assert_eq!(
        Error::InvalidFormat("missing size on line 2".to_string()).message(),
        "invalid file format missing size on line 2"
    );
}
