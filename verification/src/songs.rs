//! The list of downloaded songs, as the rows of the local database give it.
use vstd::prelude::*;

verus! {

/// One row of the song query; each column may be empty.
pub struct SongRow {
    pub file_name: Option<String>,
    pub file_name_pure: Option<String>,
    pub song_name: Option<String>,
    pub artist: Option<String>,
    pub album: Option<String>,
    pub bitrate: Option<i64>,
    pub duration: Option<i64>,
    pub file_size: Option<i64>,
    pub quality: Option<String>,
    pub key_id: Option<String>,
}

/// A downloaded song.
pub struct SongInfo {
    pub filename: String,
    pub display_name: String,
    pub song_name: String,
    pub artist: String,
    pub album: String,
    pub bitrate: i64,
    pub duration_ms: i64,
    pub file_size: i64,
    pub quality: String,
    pub audio_hash: String,
}

/// A downloaded song, with its texts as sequences of characters.
pub struct SongView {
    pub filename: Seq<char>,
    pub display_name: Seq<char>,
    pub song_name: Seq<char>,
    pub artist: Seq<char>,
    pub album: Seq<char>,
    pub bitrate: i64,
    pub duration_ms: i64,
    pub file_size: i64,
    pub quality: Seq<char>,
    pub audio_hash: Seq<char>,
}

impl View for SongInfo {
    type V = SongView;

    open spec fn view(&self) -> SongView {
        SongView {
            filename: self.filename@,
            display_name: self.display_name@,
            song_name: self.song_name@,
            artist: self.artist@,
            album: self.album@,
            bitrate: self.bitrate,
            duration_ms: self.duration_ms,
            file_size: self.file_size,
            quality: self.quality@,
            audio_hash: self.audio_hash@,
        }
    }
}

/// The text of a column; an empty column counts as the empty text.
pub open spec fn column_text(column: Option<String>) -> Seq<char> {
    match column {
        Some(text) => text@,
        None => Seq::empty(),
    }
}

/// The number in a column; an empty column counts as zero.
pub open spec fn column_number(column: Option<i64>) -> i64 {
    match column {
        Some(number) => number,
        None => 0,
    }
}

/// The name under which a song is shown: the first of its title, its pure file name and
/// its file name that is not empty.
pub open spec fn display_name(title: Seq<char>, pure: Seq<char>, file: Seq<char>) -> Seq<char> {
    if title.len() > 0 {
        title
    } else if pure.len() > 0 {
        pure
    } else {
        file
    }
}

/// The song that a row describes.
pub open spec fn song_of(row: SongRow) -> SongView {
    SongView {
        filename: column_text(row.file_name_pure),
        display_name: display_name(
            column_text(row.song_name),
            column_text(row.file_name_pure),
            column_text(row.file_name),
        ),
        song_name: column_text(row.song_name),
        artist: column_text(row.artist),
        album: column_text(row.album),
        bitrate: column_number(row.bitrate),
        duration_ms: column_number(row.duration),
        file_size: column_number(row.file_size),
        quality: column_text(row.quality),
        audio_hash: column_text(row.key_id),
    }
}

/// The songs that the rows describe, in their order; a row that could not be read is
/// left out.
pub open spec fn songs_in(rows: Seq<Option<SongRow>>) -> Seq<SongView>
    decreases rows.len(),
{
    if rows.len() == 0 {
        Seq::empty()
    } else {
        let before = songs_in(rows.drop_last());
        match rows.last() {
            Some(row) => before.push(song_of(row)),
            None => before,
        }
    }
}

/// The songs of a list, with their texts as sequences of characters.
pub open spec fn songs_view(songs: Seq<SongInfo>) -> Seq<SongView> {
    songs.map_values(|song: SongInfo| song@)
}

fn text_of(column: Option<String>) -> (text: String)
    ensures
        text@ == column_text(column),
{
    match column {
        Some(text) => text,
        None => String::new(),
    }
}

fn number_of(column: Option<i64>) -> (number: i64)
    ensures
        number == column_number(column),
{
    match column {
        Some(number) => number,
        None => 0,
    }
}

/// The song that a row describes.
pub fn read_song(row: SongRow) -> (song: SongInfo)
    ensures
        song@ == song_of(row),
        holds_text(song.filename@, row.file_name_pure),
        holds_text(song.song_name@, row.song_name),
        holds_text(song.artist@, row.artist),
        holds_text(song.album@, row.album),
        holds_number(song.bitrate, row.bitrate),
        holds_number(song.duration_ms, row.duration),
        holds_number(song.file_size, row.file_size),
        holds_text(song.quality@, row.quality),
        holds_text(song.audio_hash@, row.key_id),
{
    let filename = text_of(row.file_name_pure);
    let song_name = text_of(row.song_name);
    let display_name = if !song_name.as_str().is_empty() {
        song_name.clone()
    } else if !filename.as_str().is_empty() {
        filename.clone()
    } else {
        text_of(row.file_name)
    };
    SongInfo {
        filename,
        display_name,
        song_name,
        artist: text_of(row.artist),
        album: text_of(row.album),
        bitrate: number_of(row.bitrate),
        duration_ms: number_of(row.duration),
        file_size: number_of(row.file_size),
        quality: text_of(row.quality),
        audio_hash: text_of(row.key_id),
    }
}

/// The songs that the rows describe; `None` stands for a row that could not be read.
pub fn collect_songs(rows: Vec<Option<SongRow>>) -> (songs: Vec<SongInfo>)
    ensures
        songs_view(songs@) == songs_in(rows@),
{
    let ghost all = rows@;
    let mut songs: Vec<SongInfo> = Vec::new();
    for row in it: rows
        invariant
            it.seq() == all,
            songs_view(songs@) == songs_in(all.subrange(0, it.index() as int)),
    {
        let ghost done = it.index() as int;
        let ghost before = songs@;
        assert(all.subrange(0, done + 1).drop_last() =~= all.subrange(0, done));
        if let Some(row) = row {
            let song = read_song(row);
            songs.push(song);
            assert(songs_view(songs@) =~= songs_view(before).push(song@));
        }
    }
    assert(all.subrange(0, all.len() as int) =~= all);
    songs
}

/// What came of the attempt to read the song list.
pub enum SongSource {
    /// There is no database.
    Missing,
    /// The database could not be read.
    Unreadable(String),
    /// The database could be read and not queried.
    Invalid(String),
    /// The rows of the query.
    Rows(Vec<Option<SongRow>>),
}

/// The answer to a request for the song list.
pub struct SongListResult {
    pub success: bool,
    pub total: usize,
    pub songs: Vec<SongInfo>,
    pub error: Option<String>,
}

/// Why there is no song list, if there is none.
pub open spec fn source_error(source: SongSource) -> Option<Seq<char>> {
    match source {
        SongSource::Missing => Some("Database not found"@),
        SongSource::Unreadable(text) => Some(text@),
        SongSource::Invalid(text) => Some(text@),
        SongSource::Rows(_) => None,
    }
}

/// The songs of the list; none if there is no list.
pub open spec fn source_songs(source: SongSource) -> Seq<SongView> {
    match source {
        SongSource::Rows(rows) => songs_in(rows@),
        _ => Seq::empty(),
    }
}

fn no_songs(error: String) -> (answer: SongListResult)
    ensures
        !answer.success,
        answer.total == 0,
        answer.songs@.len() == 0,
        answer.error == Some(error),
{
    SongListResult { success: false, total: 0, songs: Vec::new(), error: Some(error) }
}

/// The answer to a request for the song list.
pub fn list_songs(source: SongSource) -> (answer: SongListResult)
    ensures
        answer.success == (source_error(source) is None),
        answer.total == answer.songs@.len(),
        songs_view(answer.songs@) == source_songs(source),
        match answer.error {
            Some(text) => source_error(source) == Some(text@),
            None => source_error(source) is None,
        },
{
    match source {
        SongSource::Missing => {
            let answer = no_songs("Database not found".to_string());
            assert(songs_view(answer.songs@) =~= Seq::empty());
            answer
        },
        SongSource::Unreadable(text) => {
            let answer = no_songs(text);
            assert(songs_view(answer.songs@) =~= Seq::empty());
            answer
        },
        SongSource::Invalid(text) => {
            let answer = no_songs(text);
            assert(songs_view(answer.songs@) =~= Seq::empty());
            answer
        },
        SongSource::Rows(rows) => {
            let songs = collect_songs(rows);
            SongListResult { success: true, total: songs.len(), songs, error: None }
        },
    }
}

/// A song is shown under some name whenever its row holds one, and then that name is one
/// of those in the row.
pub proof fn law_display_name_found(row: SongRow)
    ensures
        song_of(row).display_name.len() == 0 <==> {
            &&& column_text(row.song_name).len() == 0
            &&& column_text(row.file_name_pure).len() == 0
            &&& column_text(row.file_name).len() == 0
        },
        ({
            let shown = song_of(row).display_name;
            ||| shown == column_text(row.song_name)
            ||| shown == column_text(row.file_name_pure)
            ||| shown == column_text(row.file_name)
        }),
{
}

/// The rows in front decide nothing about the songs behind them: the songs of two lists
/// of rows, one after the other, are the songs of the two.
pub proof fn law_songs_in_order(first: Seq<Option<SongRow>>, second: Seq<Option<SongRow>>)
    ensures
        songs_in(first + second) == songs_in(first) + songs_in(second),
    decreases second.len(),
{
    let both = first + second;
    if second.len() == 0 {
        assert(both =~= first);
        assert(songs_in(first) + songs_in(second) =~= songs_in(first));
    } else {
        let shorter = second.drop_last();
        assert(both.drop_last() =~= first + shorter);
        law_songs_in_order(first, shorter);
        assert(songs_in(both) =~= songs_in(first) + songs_in(second));
    }
}

/// Whether a text holds what a column does: its text, or nothing if the column is empty.
pub open spec fn holds_text(text: Seq<char>, column: Option<String>) -> bool {
    &&& column matches Some(found) ==> text == found@
    &&& column is None ==> text.len() == 0
}

/// Whether a number is what a column holds: its number, or zero if the column is empty.
pub open spec fn holds_number(number: i64, column: Option<i64>) -> bool {
    &&& column matches Some(found) ==> number == found
    &&& column is None ==> number == 0
}

/// Each column of a row comes out in the song's field for it, and none is lost, whatever the
/// others hold.
pub proof fn law_columns_kept(row: SongRow)
    ensures
        holds_text(song_of(row).filename, row.file_name_pure),
        holds_text(song_of(row).song_name, row.song_name),
        holds_text(song_of(row).artist, row.artist),
        holds_text(song_of(row).album, row.album),
        holds_number(song_of(row).bitrate, row.bitrate),
        holds_number(song_of(row).duration_ms, row.duration),
        holds_number(song_of(row).file_size, row.file_size),
        holds_text(song_of(row).quality, row.quality),
        holds_text(song_of(row).audio_hash, row.key_id),
        row.album matches Some(album) ==> song_of(row).album == album@,
        row.duration matches Some(duration) ==> song_of(row).duration_ms == duration,
{
}

/// Whether a column holds no text, or an empty one.
pub open spec fn is_blank(column: Option<String>) -> bool {
    column is None || column->Some_0@.len() == 0
}

/// The title of a song is shown if it has one; without it the pure file name, and without
/// that the file name.
pub proof fn law_best_name_shown(row: SongRow)
    ensures
        !is_blank(row.song_name) ==> song_of(row).display_name == row.song_name->Some_0@,
        is_blank(row.song_name) && !is_blank(row.file_name_pure) ==> song_of(row).display_name
            == row.file_name_pure->Some_0@,
        is_blank(row.song_name) && is_blank(row.file_name_pure) ==> holds_text(
            song_of(row).display_name,
            row.file_name,
        ),
{
}

/// A readable row gives one song and an unreadable one none; with `law_songs_in_order` this
/// fixes the whole list.
pub proof fn law_one_song_per_row(row: SongRow)
    ensures
        songs_in(seq![Some(row)]) == seq![song_of(row)],
        songs_in(seq![None::<SongRow>]) == Seq::<SongView>::empty(),
{
    let one = seq![Some(row)];
    let none = seq![None::<SongRow>];
    assert(songs_in(Seq::<Option<SongRow>>::empty()) =~= Seq::<SongView>::empty());
    assert(one.last() == Some(row) && none.last() is None);
    assert(one.drop_last() =~= Seq::empty());
    assert(none.drop_last() =~= Seq::empty());
    assert(songs_in(one) =~= seq![song_of(row)]);
    assert(songs_in(none) =~= Seq::<SongView>::empty());
}

/// The view of a song holds its fields.
pub proof fn law_song_view(song: SongInfo)
    ensures
        song@.filename == song.filename@,
        song@.display_name == song.display_name@,
        song@.song_name == song.song_name@,
        song@.artist == song.artist@,
        song@.album == song.album@,
        song@.bitrate == song.bitrate,
        song@.duration_ms == song.duration_ms,
        song@.file_size == song.file_size,
        song@.quality == song.quality@,
        song@.audio_hash == song.audio_hash@,
{
}

/// A list comes exactly from rows: without them there is a reason and no song.
pub proof fn law_list_or_reason(source: SongSource)
    ensures
        source is Rows <==> source_error(source) is None,
        !(source is Rows) ==> source_songs(source).len() == 0,
        source matches SongSource::Rows(rows) ==> source_songs(source) == songs_in(rows@),
        source is Missing ==> source_error(source) == Some("Database not found"@),
        source matches SongSource::Unreadable(text) ==> source_error(source) == Some(text@),
        source matches SongSource::Invalid(text) ==> source_error(source) == Some(text@),
{
}

} // verus!
