use flate2::write::GzEncoder;
use flate2::Compression;
use nginx_logs::read_file::{LogFile, ReadError};
use nginx_logs::create_file::{get_result_writers, ExportSinks};
use nginx_logs::filter_file::get_pathnames_to_analyze;
use nginx_logs::{export_line, export_to_csv, run, Config, ExportError, Failure};
use std::io::Write;

const HEADER: &str =
    "remote_addr,remote_user,time_local,request,status,body_bytes_sent,http_referer,http_user_agent\n";

fn gz(data: &[u8]) -> Vec<u8> {
    let mut encoder = GzEncoder::new(Vec::new(), Compression::default());
    encoder.write_all(data).unwrap();
    encoder.finish().unwrap()
}

fn file(pathname: &str, content: &[u8]) -> LogFile {
    LogFile { pathname: pathname.to_string(), content: content.to_vec() }
}

fn texts(sinks: ExportSinks) -> (String, String) {
    (String::from_utf8(sinks.writer_csv).unwrap(), String::from_utf8(sinks.writer_error).unwrap())
}

fn valid(n: usize) -> String {
    format!("10.0.0.{} - user{} [28/Oct/2021:00:18:22 +0100] \"GET /{} HTTP/1.1\" 200 {} \"-\" \"agent, {}\"", n, n, n, n, n)
}

fn row(n: usize) -> String {
    format!("10.0.0.{},user{},28/Oct/2021:00:18:22 +0100,GET /{} HTTP/1.1,200,{},-,\"agent, {}\"\n", n, n, n, n, n)
}

#[test]
fn config_takes_the_argument_behind_the_name() {
    let config = Config::new(vec!["nginx_logs".to_string(), "/var/log".to_string()]).ok().unwrap();
    assert_eq!("/var/log", config.pathname());
    let config =
        Config::new(vec!["a".to_string(), "b".to_string(), "c".to_string()]).ok().unwrap();
    assert_eq!("b", config.pathname());
}

#[test]
fn config_needs_a_pathname() {
    assert_eq!(Some("No pathname provided"), Config::new(vec!["nginx_logs".to_string()]).err());
    assert_eq!(Some("No pathname provided"), Config::new(vec![]).err());
}

#[test]
fn a_line_goes_to_the_table_or_to_the_rejected_lines() {
    let mut sinks = ExportSinks { writer_csv: vec![], writer_error: vec![] };
    export_line(&valid(1), &mut sinks).unwrap();
    assert_eq!(row(1).as_bytes(), &sinks.writer_csv[..]);
    assert!(sinks.writer_error.is_empty());
    export_line("not a line of a log", &mut sinks).unwrap();
    assert_eq!(row(1).as_bytes(), &sinks.writer_csv[..]);
    assert_eq!(b"not a line of a log\n", &sinks.writer_error[..]);
    export_line("", &mut sinks).unwrap();
    assert_eq!(b"not a line of a log\n\n", &sinks.writer_error[..]);
}

#[test]
fn a_run_on_no_files_writes_the_header() {
    assert_eq!((HEADER.to_string(), String::new()), texts(run(&vec![]).ok().unwrap()));
    assert_eq!(
        (HEADER.to_string(), String::new()),
        texts(run(&vec![file("dir/access.log", b"")]).ok().unwrap())
    );
}

#[test]
fn a_run_on_one_log_parts_its_lines() {
    let mut content = String::new();
    let mut table = HEADER.to_string();
    let mut errors = String::new();
    let mut rows = 0;
    let mut rejected = 0;
    for n in 0..50 {
        if n % 3 == 1 {
            let line = format!("broken line {} [", n);
            content.push_str(&line);
            content.push('\n');
            errors.push_str(&line);
            errors.push('\n');
            rejected += 1;
        } else {
            content.push_str(&valid(n));
            content.push('\n');
            table.push_str(&row(n));
            rows += 1;
        }
    }
    let (csv, rejects) = texts(run(&vec![file("dir/access.log", content.as_bytes())]).ok().unwrap());
    assert_eq!(table, csv);
    assert_eq!(errors, rejects);
    assert_eq!(1 + rows, csv.lines().count());
    assert_eq!(rejected, rejects.lines().count());
    assert_eq!(50, rows + rejected);
}

#[test]
fn a_run_reads_the_files_in_the_order_given() {
    let second = format!("{}\nbad 2\n", valid(2));
    let files = vec![
        file("logs/access.log.2.gz", &gz(format!("bad 1\n{}\n", valid(1)).as_bytes())),
        file("logs/access.log.1", second.as_bytes()),
        file("logs/access.log", format!("{}\r\nbad 3", valid(3)).as_bytes()),
    ];
    let (csv, rejects) = texts(run(&files).ok().unwrap());
    assert_eq!(format!("{}{}{}{}", HEADER, row(1), row(2), row(3)), csv);
    assert_eq!("bad 1\nbad 2\nbad 3\n", rejects);
}

#[test]
fn a_run_twice_gives_the_same_bytes() {
    let files = vec![
        file("access.log.1.gz", &gz(format!("x\n{}\n\"\n", valid(7)).as_bytes())),
        file("access.log", format!("{}\n{}\ny", valid(8), valid(9)).as_bytes()),
    ];
    let first = run(&files).ok().unwrap();
    let second = run(&files).ok().unwrap();
    assert_eq!(first.writer_csv, second.writer_csv);
    assert_eq!(first.writer_error, second.writer_error);
    assert!(first.writer_csv.len() > HEADER.len());
}

#[test]
fn a_run_stops_at_the_first_file_that_cannot_be_read() {
    let files = vec![
        file("access.log.3", valid(1).as_bytes()),
        file("access.log.2.gz", b"no gzip stream"),
        file("access.log.1", b"\xff"),
    ];
    assert_eq!(
        Some(Failure { file: 1, cause: ExportError::Read(ReadError::CorruptStream) }),
        run(&files).err()
    );
    let files = vec![
        file("access.log.3", valid(1).as_bytes()),
        file("access.log.2", b"fine\nfine\n\xff\n"),
        file("access.log.1.gz", b""),
    ];
    assert_eq!(
        Some(Failure { file: 1, cause: ExportError::Read(ReadError::InvalidText { line: 2 }) }),
        run(&files).err()
    );
}

#[test]
fn a_file_that_cannot_be_read_writes_nothing() {
    let mut sinks = get_result_writers().unwrap();
    let content = format!("{}\nbad\n", valid(4));
    export_to_csv("access.log", content.as_bytes(), &mut sinks).unwrap();
    let csv = sinks.writer_csv.clone();
    let errors = sinks.writer_error.clone();
    assert_eq!(format!("{}{}", HEADER, row(4)).as_bytes(), &csv[..]);
    assert_eq!(b"bad\n", &errors[..]);
    let mut bytes = valid(5).into_bytes();
    bytes.extend_from_slice(b"\n\xff\n");
    assert_eq!(
        Err(ExportError::Read(ReadError::InvalidText { line: 1 })),
        export_to_csv("access.log", &bytes, &mut sinks)
    );
    assert_eq!(csv, sinks.writer_csv);
    assert_eq!(errors, sinks.writer_error);
}

fn files_of(directory: &str, listed: &[&str]) -> Vec<LogFile> {
    get_pathnames_to_analyze(directory, false, listed)
        .into_iter()
        .map(|pathname| {
            let name = pathname.rsplit('/').next().unwrap().to_string();
            let text = format!("{}\nfrom {}\n", valid(name.len()), name);
            let content = if name.ends_with(".gz") { gz(text.as_bytes()) } else { text.into_bytes() };
            LogFile { pathname, content }
        })
        .collect()
}

#[test]
fn a_run_goes_by_the_names_and_bytes_alone() {
    let first = run(&files_of(
        "/var/log/nginx",
        &["access.log.2", "notes", "access.log.2.gz", "access.log", "access.log.300"],
    ))
    .ok()
    .unwrap();
    let second = run(&files_of(
        "elsewhere/",
        &["access.log.300", "access.log", "other", "access.log.2.gz", "access.log.2"],
    ))
    .ok()
    .unwrap();
    assert_eq!(first.writer_csv, second.writer_csv);
    assert_eq!(first.writer_error, second.writer_error);
    assert_eq!(
        "from access.log.300\nfrom access.log.2.gz\nfrom access.log.2\nfrom access.log\n",
        String::from_utf8(first.writer_error).unwrap()
    );
}
