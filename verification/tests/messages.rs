use quikcov::capture::needs_cwd;
use quikcov::ipc::{after_write, frame, read_frame};
use quikcov::{Capture, Frame, Gcda, Sending};

#[test]
fn frame_is_mark_length_and_payload() {
    assert_eq!(frame(&[]), vec![0, 0, 0, 0, 0]);
    assert_eq!(frame(&[9, 8, 7]), vec![0, 0, 0, 0, 3, 9, 8, 7]);
    let long = vec![1u8; 0x1_02_03];
    let framed = frame(&long);
    assert_eq!(&framed[..5], &[0, 0, 1, 2, 3]);
    assert_eq!(framed.len(), 5 + long.len());
}

#[test]
fn payload_is_path_and_data_behind_their_lengths() {
    let gcda = Gcda { filepath: "a/b".to_string(), data: vec![1, 2] };
    assert_eq!(gcda.to_frame(), Some(vec![0, 0, 0, 0, 7, 3, b'a', b'/', b'b', 2, 1, 2]));
    let long = Gcda { filepath: "\u{e9}".to_string(), data: vec![5; 300] };
    let framed = long.to_frame().unwrap();
    assert_eq!(&framed[..10], &[0, 0, 0, 1, 49, 2, 0xc3, 0xa9, 0xac, 0x02]);
    assert_eq!(framed.len(), 5 + 1 + 2 + 2 + 300);
}

#[test]
fn payload_comes_back_as_it_was_sent() {
    let gcda = Gcda { filepath: "/w/x.gcda".to_string(), data: vec![0, 255, 7] };
    let framed = gcda.to_frame().unwrap();
    match read_frame(&framed) {
        Frame::Message { payload, rest } => {
            assert!(rest.is_empty());
            assert_ne!(payload, gcda.data.as_slice());
            let back = Gcda::from_payload(payload).unwrap();
            assert_eq!(back.filepath, "/w/x.gcda");
            assert_eq!(back.data, vec![0, 255, 7]);
        }
        _ => panic!("a whole frame was given"),
    }
}

#[test]
fn malformed_payload_is_no_record() {
    assert!(Gcda::from_payload(&[]).is_none());
    assert!(Gcda::from_payload(&[3, b'a']).is_none());
    assert!(Gcda::from_payload(&[1, 0xff, 0]).is_none());
    assert!(Gcda::from_payload(&[1, b'a', 2, 1]).is_none());
    let ok = Gcda::from_payload(&[1, b'a', 0]).unwrap();
    assert_eq!((ok.filepath.as_str(), ok.data.len()), ("a", 0));
}

#[test]
fn frames_are_read_one_by_one() {
    let stream = [7u8, 0, 0, 0, 2, 10, 11, 0, 0, 0, 0, 1, 12, 0, 0];
    let rest = match read_frame(&stream) {
        Frame::Message { payload, rest } => {
            assert_eq!(payload, &[10u8, 11][..]);
            rest
        }
        _ => panic!("first frame"),
    };
    let rest = match read_frame(rest) {
        Frame::Message { payload, rest } => {
            assert_eq!(payload, &[12u8][..]);
            rest
        }
        _ => panic!("second frame"),
    };
    assert!(matches!(read_frame(rest), Frame::Broken));
    assert!(matches!(read_frame(&[]), Frame::End));
    assert!(matches!(read_frame(&[0, 0, 0, 0, 1]), Frame::Broken));
    assert!(matches!(read_frame(&[0, 0, 0, 0, 0]), Frame::Message { .. }));
    assert!(matches!(read_frame(&[0, 1, 0, 0, 0, 1]), Frame::Broken));
}

#[test]
fn sending_goes_on_until_all_is_written() {
    assert_eq!(after_write(10, 0, 4, false), Sending::Continue(4));
    assert_eq!(after_write(10, 4, 6, false), Sending::Done);
    assert_eq!(after_write(10, 4, 7, false), Sending::Done);
    assert_eq!(after_write(10, 4, -1, true), Sending::Continue(4));
    assert_eq!(after_write(10, 4, -1, false), Sending::Abort);
    assert_eq!(after_write(10, 4, 0, false), Sending::Abort);
    assert_eq!(after_write(10, 4, 0, true), Sending::Abort);
}

#[test]
fn data_files_are_tracked_from_open_to_close() {
    let mut capture = Capture::new();
    capture.opened(3, "/w/a.gcda", "/cwd");
    capture.opened(4, "/w/a.txt", "/cwd");
    capture.opened(-1, "/w/b.gcda", "/cwd");
    capture.opened(5, "gcda", "/cwd");
    assert_eq!(capture.files.len(), 1);
    assert_eq!(capture.files[&3].filepath, "/w/a.gcda");
    assert!(capture.written(3, &[1, 2]));
    assert!(!capture.written(4, &[9]));
    assert!(capture.written(3, &[3]));
    let record = capture.closed(3).unwrap();
    assert_eq!((record.filepath.as_str(), record.data), ("/w/a.gcda", vec![1, 2, 3]));
    assert!(capture.closed(3).is_none());
    assert!(!capture.written(3, &[1]));
    assert!(capture.files.is_empty());
}

#[test]
fn empty_data_file_sends_nothing() {
    let mut capture = Capture::new();
    capture.opened(0, ".gcda", "/cwd");
    assert!(capture.written(0, &[]));
    assert!(capture.closed(0).is_none());
    assert!(capture.files.is_empty());
}

#[test]
fn path_below_proc_is_resolved() {
    let mut capture = Capture::new();
    capture.opened(3, "/proc/self/cwd/obj/a.gcda", "/home/u");
    assert_eq!(capture.files[&3].filepath, "/home/u/obj/a.gcda");
    capture.opened(4, "/proc/self/cwd.gcda", "/home/u");
    assert_eq!(capture.files[&4].filepath, "/proc/self/cwd.gcda");
    assert_eq!(quikcov::capture::resolve("/proc/self/cwd/\u{e9}.gcda", "/h"), "/h/\u{e9}.gcda");
}

#[test]
fn streams_lead_to_their_files() {
    let mut capture = Capture::new();
    capture.opened(3, "a.gcda", "/");
    capture.stream_opened(0x1000, 3);
    capture.stream_opened(0x2000, 9);
    capture.stream_opened(0, 3);
    assert_eq!(capture.streams.len(), 2);
    assert!(capture.stream_written(0x1000, &[4, 5]));
    assert!(!capture.stream_written(0x2000, &[6]));
    assert!(!capture.stream_written(0x3000, &[6]));
    assert!(capture.stream_closed(0x3000).is_none());
    assert!(capture.stream_closed(0x2000).is_none());
    let record = capture.stream_closed(0x1000).unwrap();
    assert_eq!(record.data, vec![4, 5]);
    assert!(capture.streams.is_empty() && capture.files.is_empty());
    assert!(capture.stream_closed(0x1000).is_none());
}

#[test]
fn tracked_files_and_streams_are_told() {
    let mut capture = Capture::new();
    assert!(!capture.tracks(3));
    capture.opened(3, "a.gcda", "/");
    capture.stream_opened(0x1000, 3);
    capture.stream_opened(0x2000, 9);
    assert!(capture.tracks(3) && !capture.tracks(9));
    assert!(capture.tracks_stream(0x1000));
    assert!(!capture.tracks_stream(0x2000) && !capture.tracks_stream(0x3000));
    capture.closed(3);
    assert!(!capture.tracks(3) && !capture.tracks_stream(0x1000));
}

#[test]
fn working_directory_is_needed_below_proc_only() {
    assert!(needs_cwd(3, "/proc/self/cwd/obj/a.gcda"));
    assert!(needs_cwd(0, "/proc/self/cwd/.gcda"));
    assert!(!needs_cwd(-1, "/proc/self/cwd/obj/a.gcda"));
    assert!(!needs_cwd(3, "/proc/self/cwd/obj/a.gcno"));
    assert!(!needs_cwd(3, "/w/proc/self/cwd/a.gcda"));
    assert!(!needs_cwd(3, "/w/a.gcda"));
    let mut with = Capture::new();
    let mut without = Capture::new();
    with.opened(3, "/w/a.gcda", "/home");
    without.opened(3, "/w/a.gcda", "");
    assert_eq!(with.files[&3].filepath, without.files[&3].filepath);
}

#[test]
fn sent_record_is_read_back() {
    for (path, data) in [("", vec![]), ("/w/\u{e9}.gcda", vec![0u8; 200]), ("a", vec![1, 2, 3])] {
        let gcda = Gcda { filepath: path.to_string(), data: data.clone() };
        let mut stream = gcda.to_frame().unwrap();
        stream.extend_from_slice(&[9, 9]);
        match read_frame(&stream) {
            Frame::Message { payload, rest } => {
                assert_eq!(rest, &[9u8, 9][..]);
                let back = Gcda::from_payload(payload).unwrap();
                assert_eq!((back.filepath.as_str(), back.data), (path, data));
            }
            _ => panic!("a whole frame was sent"),
        }
    }
}
