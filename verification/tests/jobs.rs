use kgg_decryptor::jobs::{
    after_decode, after_poll, after_read, after_save, begin_event, calls_for_work,
    download_directories, end_event, in_batch, open_file, pick_database, summarise, titled,
    watch_file, Change, Origin, Outcome, Stage,
};
use kgg_decryptor::songs::{collect_songs, list_songs, read_song, SongRow, SongSource};
use kgg_decryptor::watch::{SizeWatch, WatchStep};

fn observe(sizes: &[Option<u64>]) -> (WatchStep, usize) {
    let mut watch = SizeWatch::new();
    for (i, size) in sizes.iter().enumerate() {
        match watch.poll(*size) {
            WatchStep::Again(next) => watch = next,
            over => return (over, i + 1),
        }
    }
    (WatchStep::Again(watch), sizes.len())
}

#[test]
fn five_equal_sizes_in_a_row_are_stable() {
    assert_eq!(observe(&[Some(9); 8]), (WatchStep::Stable, 5));
    assert!(matches!(observe(&[Some(9); 4]), (WatchStep::Again(_), 4)));
    let sizes = [1u64, 2, 2, 2, 2, 3, 3, 3, 3, 3].map(Some);
    assert_eq!(observe(&sizes), (WatchStep::Stable, 10));
    let mut late: Vec<Option<u64>> = (1..=55).map(Some).collect();
    late.extend([Some(70); 5]);
    assert_eq!(observe(&late), (WatchStep::Stable, 60));
}

#[test]
fn empty_or_growing_files_time_out() {
    assert_eq!(observe(&[Some(0); 100]), (WatchStep::GivenUp, 60));
    let growing: Vec<Option<u64>> = (1..=100).map(Some).collect();
    assert_eq!(observe(&growing), (WatchStep::GivenUp, 60));
    let mut late: Vec<Option<u64>> = (1..=56).map(Some).collect();
    late.extend([Some(70); 5]);
    assert_eq!(observe(&late), (WatchStep::GivenUp, 60));
}

#[test]
fn files_that_vanish_are_given_up() {
    assert_eq!(observe(&[None]), (WatchStep::GivenUp, 1));
    assert_eq!(observe(&[Some(1), Some(1), None, Some(1)]), (WatchStep::GivenUp, 3));
}

fn failure(stage: Stage) -> String {
    match stage {
        Stage::Done(Outcome::Failed(reason)) => reason,
        _ => panic!("no failure"),
    }
}

#[test]
fn a_watched_file_up_to_its_report() {
    let mut stage = watch_file();
    let mut polls = 0;
    while let Stage::Poll(watch) = stage {
        stage = after_poll(watch, Some(1234));
        polls += 1;
    }
    assert_eq!(polls, 5);
    assert!(matches!(stage, Stage::Read));
    assert!(matches!(open_file(), Stage::Read));
    assert!(matches!(after_read(Ok(vec![1, 2])), Stage::Decode(data) if data == [1, 2]));
    match after_decode("song", Ok((vec![3], "flac".to_string()))) {
        Stage::Save { file_name, format, audio } => {
            assert_eq!(file_name, "song.flac");
            assert_eq!(audio, [3]);
            match after_save(format, Ok(())) {
                Stage::Done(outcome) => {
                    let event = end_event("song".to_string(), &outcome);
                    assert_eq!(event.event_type, "success");
                    assert_eq!(event.filename, "song");
                    assert_eq!(event.message, ".flac");
                }
                _ => panic!("not done"),
            }
        }
        _ => panic!("nothing to save"),
    }
}

#[test]
fn reasons_of_failures() {
    let watch = SizeWatch::new();
    assert_eq!(failure(after_poll(watch, None)), "timeout");
    assert_eq!(failure(after_read(Err("denied".to_string()))), "read: denied");
    assert_eq!(failure(after_decode("s", Err("invalid KGG file".to_string()))), "invalid KGG file");
    assert_eq!(failure(after_save("mp3".to_string(), Err("full".to_string()))), "save: full");
    let event = end_event("s".to_string(), &Outcome::Failed("read: denied".to_string()));
    assert_eq!(event.event_type, "error");
    assert_eq!(event.filename, "s");
    assert_eq!(event.message, "read: denied");
}

#[test]
fn the_start_is_reported() {
    let event = begin_event("a".to_string(), Origin::Watched);
    assert_eq!(
        (event.event_type.as_str(), event.filename.as_str(), event.message.as_str()),
        ("detect", "a", "detected")
    );
    assert_eq!(begin_event("a".to_string(), Origin::Batch).message, "batch");
}

#[test]
fn a_batch_adds_up() {
    let result = summarise(vec![
        ("a".to_string(), Outcome::Saved("mp3".to_string())),
        ("b".to_string(), Outcome::Failed("read: gone".to_string())),
        ("c".to_string(), Outcome::Saved("ogg".to_string())),
    ]);
    assert_eq!((result.total, result.succeeded, result.failed), (3, 2, 1));
    let items: Vec<_> = result
        .items
        .iter()
        .map(|i| (i.filename.as_str(), i.success, i.format.as_str(), i.error.as_deref()))
        .collect();
    assert_eq!(
        items,
        [
            ("a", true, "mp3", None),
            ("b", false, "", Some("read: gone")),
            ("c", true, "ogg", None)
        ]
    );
    let none = summarise(vec![]);
    assert_eq!((none.total, none.succeeded, none.failed, none.items.len()), (0, 0, 0, 0));
}

#[test]
fn names_of_files_to_work_on() {
    for (name, yes) in [
        ("a.kgg", true),
        ("a.b.kgg", true),
        ("a.KGG", false),
        (".kgg", false),
        ("..kgg", true),
        ("kgg", false),
        ("a.kgg.part", false),
        ("", false),
    ] {
        assert_eq!(in_batch(name), yes, "{name}");
        assert_eq!(calls_for_work(Change::Created, name), yes);
        assert_eq!(calls_for_work(Change::Modified, name), yes);
        assert!(!calls_for_work(Change::Other, name));
    }
}

#[test]
fn the_first_key_database_is_taken() {
    let pick = |names: &[&str]| pick_database(&names.iter().map(|n| n.to_string()).collect());
    assert_eq!(pick(&["x.db", "KGMusicV3.txt", "KGMusicV3.db", "KGMusicV3.db"]), Some(2));
    assert_eq!(pick(&["my KGMusicV3 copy.db"]), Some(0));
    assert_eq!(pick(&["KGMusicV2.db", "KGMusicV3.DB", "kgmusicv3.db", "KGMusicV3"]), None);
    assert_eq!(pick(&["KGMusicV3.old.db"]), Some(0));
    assert_eq!(pick(&[]), None);
}

#[test]
fn usual_download_directories() {
    assert_eq!(
        download_directories(),
        ["D:\\KuGou\\KugouMusic", "D:\\KuGou", "D:\\Music\\KuGou", "C:\\KuGou\\KugouMusic"]
    );
}

#[test]
fn titles_of_decoded_files() {
    let good = || Ok((vec![1u8], "mp3".to_string()));
    let data = titled(good(), Some("song".to_string()), "song.kgg".to_string()).ok().unwrap();
    assert_eq!((data.audio, data.format, data.title), (vec![1], "mp3".into(), "song".into()));
    let data = titled(good(), None, "..".to_string()).ok().unwrap();
    assert_eq!(data.title, "..");
    let bad = titled(Err("no".to_string()), None, "x".to_string());
    assert_eq!(bad.err().unwrap(), "no");
}

fn row(title: Option<&str>, pure: Option<&str>, file: Option<&str>) -> SongRow {
    SongRow {
        file_name: file.map(|s| s.to_string()),
        file_name_pure: pure.map(|s| s.to_string()),
        song_name: title.map(|s| s.to_string()),
        artist: Some("artist".to_string()),
        album: None,
        bitrate: Some(320),
        duration: None,
        file_size: Some(-1),
        quality: Some("high".to_string()),
        key_id: Some("hash".to_string()),
    }
}

#[test]
fn songs_are_shown_under_their_best_name() {
    for (title, pure, file, shown) in [
        (Some("t"), Some("p"), Some("f"), "t"),
        (Some(""), Some("p"), Some("f"), "p"),
        (None, Some("p"), None, "p"),
        (None, Some(""), Some("f"), "f"),
        (None, None, Some("f"), "f"),
        (None, None, None, ""),
    ] {
        let song = read_song(row(title, pure, file));
        assert_eq!(song.display_name, shown);
        assert_eq!(song.filename, pure.unwrap_or(""));
        assert_eq!(song.song_name, title.unwrap_or(""));
    }
}

#[test]
fn columns_of_a_song() {
    let song = read_song(row(Some("t"), Some("p"), Some("f")));
    assert_eq!(song.artist, "artist");
    assert_eq!(song.album, "");
    assert_eq!((song.bitrate, song.duration_ms, song.file_size), (320, 0, -1));
    assert_eq!(song.quality, "high");
    assert_eq!(song.audio_hash, "hash");
}

#[test]
fn unreadable_rows_are_left_out() {
    let rows = vec![
        Some(row(Some("one"), None, None)),
        None,
        Some(row(Some("two"), None, None)),
        None,
    ];
    let names: Vec<_> = collect_songs(rows).into_iter().map(|s| s.song_name).collect();
    assert_eq!(names, ["one", "two"]);
}

#[test]
fn answers_to_requests_for_the_song_list() {
    let answer = list_songs(SongSource::Rows(vec![Some(row(Some("one"), None, None)), None]));
    assert!(answer.success);
    assert_eq!((answer.total, answer.songs.len(), answer.error), (1, 1, None));
    for (source, text) in [
        (SongSource::Missing, "Database not found"),
        (SongSource::Unreadable("denied".to_string()), "denied"),
        (SongSource::Invalid("no such table".to_string()), "no such table"),
    ] {
        let answer = list_songs(source);
        assert!(!answer.success);
        assert_eq!((answer.total, answer.songs.len()), (0, 0));
        assert_eq!(answer.error.as_deref(), Some(text));
    }
}
