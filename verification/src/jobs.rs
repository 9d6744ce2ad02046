//! The work on one file after another: what to do next, what to report, and what a
//! batch amounts to. Reading and writing files is left to the caller.
use crate::audio::file_outcome;
use crate::bytes::bytes_outcome;
use crate::text::{contains_text, extension_of_path, has_part, path_extension, same_text};
use crate::watch::{watch_start, watch_step, SizeWatch, WatchStep};
use vstd::prelude::*;
use vstd::string::StringExecFns;

verus! {

/// What became of a file.
pub enum Outcome {
    /// It was saved as audio of the given format.
    Saved(String),
    /// It was not, for the given reason.
    Failed(String),
}

/// What is to be done next for a file.
pub enum Stage {
    /// Look at its size.
    Poll(SizeWatch),
    /// Read it.
    Read,
    /// Decode what was read.
    Decode(Vec<u8>),
    /// Write the audio, which is of the given format, under the given name.
    Save { file_name: String, format: String, audio: Vec<u8> },
    /// Report what became of it.
    Done(Outcome),
}

/// What became of a file: the format that it was saved in, or the reason why it was not.
pub open spec fn outcome_view(outcome: Outcome) -> Result<Seq<char>, Seq<char>> {
    match outcome {
        Outcome::Saved(format) => Ok(format@),
        Outcome::Failed(reason) => Err(reason@),
    }
}

/// What is to be done next for a file, with texts and bytes as sequences.
pub enum StageView {
    Poll(SizeWatch),
    Read,
    Decode(Seq<u8>),
    Save { file_name: Seq<char>, format: Seq<char>, audio: Seq<u8> },
    Done(Result<Seq<char>, Seq<char>>),
}

impl View for Stage {
    type V = StageView;

    open spec fn view(&self) -> StageView {
        match self {
            Stage::Poll(watch) => StageView::Poll(*watch),
            Stage::Read => StageView::Read,
            Stage::Decode(data) => StageView::Decode(data@),
            Stage::Save { file_name, format, audio } => StageView::Save {
                file_name: file_name@,
                format: format@,
                audio: audio@,
            },
            Stage::Done(outcome) => StageView::Done(outcome_view(*outcome)),
        }
    }
}

/// What follows a look at the file's size.
pub open spec fn polled(watch: SizeWatch, size: Option<u64>) -> StageView {
    match watch_step(watch, size) {
        WatchStep::Again(next) => StageView::Poll(next),
        WatchStep::Stable => StageView::Read,
        WatchStep::GivenUp => StageView::Done(Err("timeout"@)),
    }
}

/// What follows the attempt to read the file.
pub open spec fn read_done(contents: Result<Seq<u8>, Seq<char>>) -> StageView {
    match contents {
        Ok(data) => StageView::Decode(data),
        Err(text) => StageView::Done(Err("read: "@ + text)),
    }
}

/// What follows the attempt to decode the file whose name without its extension is
/// `stem`.
pub open spec fn decode_done(
    stem: Seq<char>,
    decoded: Result<(Seq<u8>, Seq<char>), Seq<char>>,
) -> StageView {
    match decoded {
        Ok((audio, format)) => StageView::Save { file_name: stem + "."@ + format, format, audio },
        Err(text) => StageView::Done(Err(text)),
    }
}

/// What follows the attempt to write audio of the given format.
pub open spec fn save_done(format: Seq<char>, saved: Result<(), Seq<char>>) -> StageView {
    match saved {
        Ok(_) => StageView::Done(Ok(format)),
        Err(text) => StageView::Done(Err("save: "@ + text)),
    }
}

/// The first stage for a file that may still be being written.
pub fn watch_file() -> (stage: Stage)
    ensures
        stage@ == StageView::Poll(watch_start()),
{
    Stage::Poll(SizeWatch::new())
}

/// The first stage for a file that is complete.
pub fn open_file() -> (stage: Stage)
    ensures
        stage@ == StageView::Read,
{
    Stage::Read
}

/// What follows a look at the file's size.
pub fn after_poll(watch: SizeWatch, size: Option<u64>) -> (stage: Stage)
    requires
        watch.in_progress(),
    ensures
        stage@ == polled(watch, size),
        stage matches Stage::Poll(next) ==> next.in_progress(),
{
    match watch.poll(size) {
        WatchStep::Again(next) => Stage::Poll(next),
        WatchStep::Stable => Stage::Read,
        WatchStep::GivenUp => Stage::Done(Outcome::Failed("timeout".to_string())),
    }
}

/// What follows the attempt to read the file.
pub fn after_read(contents: Result<Vec<u8>, String>) -> (stage: Stage)
    ensures
        stage@ == read_done(bytes_outcome(contents)),
{
    match contents {
        Ok(data) => Stage::Decode(data),
        Err(text) => {
            let mut reason = "read: ".to_string();
            reason.append(text.as_str());
            Stage::Done(Outcome::Failed(reason))
        },
    }
}

/// What follows the attempt to decode the file whose name without its extension is
/// `stem`.
pub fn after_decode(stem: &str, decoded: Result<(Vec<u8>, String), String>) -> (stage: Stage)
    ensures
        stage@ == decode_done(stem@, file_outcome(decoded)),
        decoded matches Ok((audio, format)) ==> {
            &&& stage matches Stage::Save { file_name, format: kept, audio: saved }
            &&& file_name@ == stem@ + seq!['.'] + format@
            &&& kept@ == format@
            &&& saved@ == audio@
        },
{
    proof {
        reveal_strlit(".");
        assert("."@ =~= seq!['.']);
    }
    match decoded {
        Ok((audio, format)) => {
            let mut file_name = stem.to_string();
            file_name.append(".");
            file_name.append(format.as_str());
            Stage::Save { file_name, format, audio }
        },
        Err(text) => Stage::Done(Outcome::Failed(text)),
    }
}

/// What a call that gives nothing or a complaint returned.
pub open spec fn save_outcome(saved: Result<(), String>) -> Result<(), Seq<char>> {
    match saved {
        Ok(_) => Ok(()),
        Err(text) => Err(text@),
    }
}

/// What follows the attempt to write audio of the given format.
pub fn after_save(format: String, saved: Result<(), String>) -> (stage: Stage)
    ensures
        stage@ == save_done(format@, save_outcome(saved)),
{
    match saved {
        Ok(_) => Stage::Done(Outcome::Saved(format)),
        Err(text) => {
            let mut reason = "save: ".to_string();
            reason.append(text.as_str());
            Stage::Done(Outcome::Failed(reason))
        },
    }
}

/// How the work on a complete file ends, given what came of each step that is taken.
pub open spec fn end_of_work(
    stem: Seq<char>,
    contents: Result<Seq<u8>, Seq<char>>,
    decoded: Result<(Seq<u8>, Seq<char>), Seq<char>>,
    saved: Result<(), Seq<char>>,
) -> StageView {
    match read_done(contents) {
        StageView::Decode(_) => match decode_done(stem, decoded) {
            StageView::Save { format, .. } => save_done(format, saved),
            other => other,
        },
        other => other,
    }
}

/// The work on a complete file always ends in a report. It tells of success exactly when
/// the file was read, decoded and saved, and otherwise of the first step that failed.
pub proof fn law_every_file_is_reported(
    stem: Seq<char>,
    contents: Result<Seq<u8>, Seq<char>>,
    decoded: Result<(Seq<u8>, Seq<char>), Seq<char>>,
    saved: Result<(), Seq<char>>,
)
    ensures
        end_of_work(stem, contents, decoded, saved) matches StageView::Done(report) && {
            &&& report is Ok <==> contents is Ok && decoded is Ok && saved is Ok
            &&& report matches Ok(format) ==> format == decoded->Ok_0.1
            &&& contents matches Err(text) ==> report == Err::<Seq<char>, Seq<char>>(
                "read: "@ + text,
            )
            &&& contents is Ok && decoded is Err ==> report == Err::<Seq<char>, Seq<char>>(
                decoded->Err_0,
            )
            &&& contents is Ok && decoded is Ok && saved is Err ==> report == Err::<
                Seq<char>,
                Seq<char>,
            >("save: "@ + saved->Err_0)
        },
{
}

/// A message to the user about a file.
pub struct MonitorEvent {
    pub event_type: String,
    pub filename: String,
    pub message: String,
}

/// How work on a file came about.
#[derive(Clone, Copy, Debug, PartialEq, Eq, Structural)]
pub enum Origin {
    /// The file appeared in the watched directory.
    Watched,
    /// The file is part of a batch.
    Batch,
}

/// The message that work on a file begins.
pub fn begin_event(filename: String, origin: Origin) -> (event: MonitorEvent)
    ensures
        event.event_type@ == "detect"@,
        event.filename == filename,
        event.message@ == (match origin {
            Origin::Watched => "detected"@,
            Origin::Batch => "batch"@,
        }),
{
    let message = match origin {
        Origin::Watched => "detected".to_string(),
        Origin::Batch => "batch".to_string(),
    };
    MonitorEvent { event_type: "detect".to_string(), filename, message }
}

/// The message about what became of a file.
pub fn end_event(filename: String, outcome: &Outcome) -> (event: MonitorEvent)
    ensures
        event.filename == filename,
        match outcome {
            Outcome::Saved(format) => {
                &&& event.event_type@ == "success"@
                &&& event.message@ == "."@ + format@
            },
            Outcome::Failed(reason) => {
                &&& event.event_type@ == "error"@
                &&& event.message@ == reason@
            },
        },
{
    match outcome {
        Outcome::Saved(format) => {
            let mut message = ".".to_string();
            message.append(format.as_str());
            MonitorEvent { event_type: "success".to_string(), filename, message }
        },
        Outcome::Failed(reason) => MonitorEvent {
            event_type: "error".to_string(),
            filename,
            message: reason.clone(),
        },
    }
}

/// One file of a batch.
pub struct BatchItem {
    pub filename: String,
    pub success: bool,
    pub format: String,
    pub error: Option<String>,
}

/// What a batch amounts to.
pub struct BatchResult {
    pub total: usize,
    pub succeeded: usize,
    pub failed: usize,
    pub items: Vec<BatchItem>,
}

/// Whether `item` tells what became of the file.
pub open spec fn item_tells(item: BatchItem, done: (String, Outcome)) -> bool {
    &&& item.filename@ == done.0@
    &&& match done.1 {
        Outcome::Saved(format) => item.success && item.format@ == format@ && item.error is None,
        Outcome::Failed(reason) => {
            &&& !item.success
            &&& item.format@.len() == 0
            &&& item.error matches Some(text) && text@ == reason@
        },
    }
}

/// How many of the files were saved.
pub open spec fn saved_count(done: Seq<(String, Outcome)>) -> int
    decreases done.len(),
{
    if done.len() == 0 {
        0
    } else {
        saved_count(done.drop_last()) + (if done.last().1 is Saved {
            1int
        } else {
            0
        })
    }
}

/// How many of the files were not saved.
pub open spec fn failed_count(done: Seq<(String, Outcome)>) -> int
    decreases done.len(),
{
    if done.len() == 0 {
        0
    } else {
        failed_count(done.drop_last()) + (if done.last().1 is Failed {
            1int
        } else {
            0
        })
    }
}

fn batch_item(filename: &String, outcome: &Outcome) -> (item: BatchItem)
    ensures
        item_tells(item, (*filename, *outcome)),
{
    match outcome {
        Outcome::Saved(format) => BatchItem {
            filename: filename.clone(),
            success: true,
            format: format.clone(),
            error: None,
        },
        Outcome::Failed(reason) => BatchItem {
            filename: filename.clone(),
            success: false,
            format: String::new(),
            error: Some(reason.clone()),
        },
    }
}

/// What a batch amounts to, whose files, in their order, came to the given ends.
pub fn summarise(done: Vec<(String, Outcome)>) -> (result: BatchResult)
    ensures
        result.total == done@.len(),
        result.succeeded == saved_count(done@),
        result.failed == failed_count(done@),
        result.items@.len() == done@.len(),
        forall|i: int| 0 <= i < done@.len() ==> #[trigger] item_tells(result.items@[i], done@[i]),
{
    let mut items: Vec<BatchItem> = Vec::new();
    let mut succeeded: usize = 0;
    let mut failed: usize = 0;
    for i in 0..done.len()
        invariant
            items@.len() == i,
            forall|k: int| 0 <= k < i ==> #[trigger] item_tells(items@[k], done@[k]),
            succeeded == saved_count(done@.subrange(0, i as int)),
            failed == failed_count(done@.subrange(0, i as int)),
            succeeded + failed == i,
    {
        assert(done@.subrange(0, i + 1).drop_last() =~= done@.subrange(0, i as int));
        let (filename, outcome) = &done[i];
        match outcome {
            Outcome::Saved(_) => {
                succeeded = succeeded + 1;
            },
            Outcome::Failed(_) => {
                failed = failed + 1;
            },
        }
        items.push(batch_item(filename, outcome));
    }
    assert(done@.subrange(0, done@.len() as int) =~= done@);
    BatchResult { total: done.len(), succeeded, failed, items }
}

/// Every file of a batch either succeeds or fails: the two counts add up to the total.
pub proof fn law_batch_adds_up(done: Seq<(String, Outcome)>)
    ensures
        saved_count(done) + failed_count(done) == done.len(),
        saved_count(done) >= 0,
        failed_count(done) >= 0,
    decreases done.len(),
{
    if done.len() > 0 {
        law_batch_adds_up(done.drop_last());
    }
}

/// How a file in the watched directory changed.
#[derive(Clone, Copy, Debug, PartialEq, Eq, Structural)]
pub enum Change {
    Created,
    Modified,
    Other,
}

/// Whether a file name is that of a KGG file.
pub open spec fn is_kgg_name(file_name: Seq<char>) -> bool {
    path_extension(file_name) == Some("kgg"@)
}

/// Whether a file name is that of a key database.
pub open spec fn is_database_name(file_name: Seq<char>) -> bool {
    path_extension(file_name) == Some("db"@) && contains_text(file_name, "KGMusicV3"@)
}

fn has_extension(file_name: &str, ext: &str) -> (yes: bool)
    ensures
        yes == (path_extension(file_name@) == Some(ext@)),
{
    match extension_of_path(file_name) {
        Some(found) => same_text(found.as_str(), ext),
        None => false,
    }
}

/// Whether a file belongs into a batch.
pub fn in_batch(file_name: &str) -> (yes: bool)
    ensures
        yes == is_kgg_name(file_name@),
{
    has_extension(file_name, "kgg")
}

/// Whether a change in the watched directory calls for work on the file.
pub fn calls_for_work(change: Change, file_name: &str) -> (yes: bool)
    ensures
        yes == (change != Change::Other && is_kgg_name(file_name@)),
{
    (change == Change::Created || change == Change::Modified) && has_extension(file_name, "kgg")
}

/// The first of the file names that is that of a key database.
pub fn pick_database(file_names: &Vec<String>) -> (at: Option<usize>)
    ensures
        match at {
            Some(i) => {
                &&& i < file_names@.len()
                &&& is_database_name(file_names@[i as int]@)
                &&& forall|k: int| 0 <= k < i ==> !is_database_name(#[trigger] file_names@[k]@)
            },
            None => forall|k: int|
                0 <= k < file_names@.len() ==> !is_database_name(#[trigger] file_names@[k]@),
        },
{
    for i in 0..file_names.len()
        invariant
            forall|k: int| 0 <= k < i ==> !is_database_name(#[trigger] file_names@[k]@),
    {
        let name = file_names[i].as_str();
        if has_extension(name, "db") && has_part(name, "KGMusicV3") {
            return Some(i);
        }
    }
    None
}

/// The directories in which downloads are looked for first, in this order.
pub open spec fn usual_directories() -> Seq<Seq<char>> {
    seq![
        "D:\\KuGou\\KugouMusic"@,
        "D:\\KuGou"@,
        "D:\\Music\\KuGou"@,
        "C:\\KuGou\\KugouMusic"@,
    ]
}

/// The directories in which downloads are looked for first, in this order.
pub fn download_directories() -> (directories: Vec<String>)
    ensures
        directories@.map_values(|directory: String| directory@) == usual_directories(),
{
    let mut directories: Vec<String> = Vec::new();
    directories.push("D:\\KuGou\\KugouMusic".to_string());
    directories.push("D:\\KuGou".to_string());
    directories.push("D:\\Music\\KuGou".to_string());
    directories.push("C:\\KuGou\\KugouMusic".to_string());
    assert(directories@.map_values(|directory: String| directory@) =~= usual_directories());
    directories
}

/// A decoded file for the user.
pub struct DecryptResultData {
    pub audio: Vec<u8>,
    pub format: String,
    pub title: String,
}

/// A decoded file under the name of the file without its extension, or under the whole
/// name if it has no such part.
pub fn titled(
    decoded: Result<(Vec<u8>, String), String>,
    stem: Option<String>,
    filename: String,
) -> (res: Result<DecryptResultData, String>)
    ensures
        match decoded {
            Ok((audio, format)) => {
                &&& res matches Ok(data)
                &&& data.audio == audio
                &&& data.format == format
                &&& data.title == (match stem {
                    Some(name) => name,
                    None => filename,
                })
            },
            Err(text) => res == Err::<DecryptResultData, String>(text),
        },
{
    let (audio, format) = decoded?;
    let title = match stem {
        Some(name) => name,
        None => filename,
    };
    Ok(DecryptResultData { audio, format, title })
}

/// A file that was decoded is saved under its stem, a dot and the extension that decoding
/// gave, so that the name ends in that extension; what is saved is the decoded audio. Two
/// formats give one stem two names, and one format gives two stems two names.
pub proof fn law_saved_under_its_format(
    stem: Seq<char>,
    audio: Seq<u8>,
    format: Seq<char>,
    other_stem: Seq<char>,
    other_audio: Seq<u8>,
    other_format: Seq<char>,
)
    ensures
        decode_done(stem, Ok((audio, format))) matches StageView::Save {
            file_name,
            format: kept,
            audio: saved,
        } && {
            &&& file_name.len() == stem.len() + 1 + format.len()
            &&& stem.is_prefix_of(file_name)
            &&& file_name[stem.len() as int] == '.'
            &&& format.is_suffix_of(file_name)
            &&& kept == format
            &&& saved == audio
        },
        format != other_format ==> decode_done(stem, Ok((audio, format)))->file_name
            != decode_done(stem, Ok((other_audio, other_format)))->file_name,
        stem != other_stem ==> decode_done(stem, Ok((audio, format)))->file_name != decode_done(
            other_stem,
            Ok((other_audio, format)),
        )->file_name,
{
    reveal_strlit(".");
    let name = stem + "."@ + format;
    let n = stem.len() as int;
    assert(name.subrange(0, n) =~= stem);
    assert(name.subrange(n + 1, name.len() as int) =~= format);
    let second = stem + "."@ + other_format;
    assert(second.subrange(n + 1, second.len() as int) =~= other_format);
    let third = other_stem + "."@ + format;
    assert(third.subrange(0, other_stem.len() as int) =~= other_stem);
    if name == third {
        assert(n == other_stem.len());
    }
}

/// Nothing is saved but what was decoded, and nothing is decoded but what was read: a
/// failure at any step ends the work with a reason that holds the whole complaint.
pub proof fn law_steps_of_work(
    stem: Seq<char>,
    data: Seq<u8>,
    format: Seq<char>,
    complaint: Seq<char>,
)
    ensures
        read_done(Ok(data)) == StageView::Decode(data),
        read_done(Err(complaint)) matches StageView::Done(Err(reason))
            && reason.len() == 6 + complaint.len() && complaint.is_suffix_of(reason)
            && "read: "@.is_prefix_of(reason),
        decode_done(stem, Err(complaint)) == StageView::Done(Err(complaint)),
        save_done(format, Ok(())) == StageView::Done(Ok(format)),
        save_done(format, Err(complaint)) matches StageView::Done(Err(reason))
            && reason.len() == 6 + complaint.len() && complaint.is_suffix_of(reason)
            && "save: "@.is_prefix_of(reason),
{
    reveal_strlit("read: ");
    reveal_strlit("save: ");
    let read = "read: "@ + complaint;
    let save = "save: "@ + complaint;
    assert(read.subrange(6, read.len() as int) =~= complaint);
    assert(read.subrange(0, 6) =~= "read: "@);
    assert(save.subrange(6, save.len() as int) =~= complaint);
    assert(save.subrange(0, 6) =~= "save: "@);
}

/// A file is read once it keeps its size and not before; if it never does, the work ends
/// with the reason "timeout".
pub proof fn law_read_when_settled(watch: SizeWatch, size: Option<u64>)
    requires
        watch.in_progress(),
    ensures
        polled(watch, size) is Read <==> size == Some(watch.last_size) && watch.last_size > 0
            && watch.repeats == 3,
        size is None ==> polled(watch, size) == StageView::Done(Err("timeout"@)),
        polled(watch, size) is Done ==> polled(watch, size) == StageView::Done(
            Err("timeout"@),
        ) && (size is None || watch.polls == 59),
        polled(watch, size) matches StageView::Poll(next) ==> size is Some && next.polls
            == watch.polls + 1 && next.last_size == size->Some_0,
{
}

/// The view of a stage holds what the stage does.
pub proof fn law_stage_view(stage: Stage)
    ensures
        stage matches Stage::Poll(watch) ==> stage@ == StageView::Poll(watch),
        stage is Read ==> stage@ is Read,
        stage matches Stage::Decode(data) ==> stage@ == StageView::Decode(data@),
        stage matches Stage::Save { file_name, format, audio } ==> stage@->file_name
            == file_name@ && stage@->format == format@ && stage@->audio == audio@ && stage@ is Save,
        stage matches Stage::Done(Outcome::Saved(format)) ==> stage@ == StageView::Done(
            Ok(format@),
        ),
        stage matches Stage::Done(Outcome::Failed(reason)) ==> stage@ == StageView::Done(
            Err(reason@),
        ),
{
}

/// The counts of a batch are the numbers of its files that were saved and that were not.
pub proof fn law_batch_counts(done: Seq<(String, Outcome)>)
    ensures
        saved_count(done) == done.filter(|file: (String, Outcome)| file.1 is Saved).len(),
        failed_count(done) == done.filter(|file: (String, Outcome)| file.1 is Failed).len(),
    decreases done.len(),
{
    reveal(Seq::filter);
    if done.len() > 0 {
        law_batch_counts(done.drop_last());
    }
}

/// The item of a file tells which file it was, whether it was saved, and either its format
/// or the whole reason why not.
pub proof fn law_item_tells_all(item: BatchItem, filename: String, outcome: Outcome)
    requires
        item_tells(item, (filename, outcome)),
    ensures
        item.filename@ == filename@,
        item.success <==> outcome is Saved,
        item.error is Some <==> outcome is Failed,
        outcome matches Outcome::Saved(format) ==> item.format@ == format@,
        outcome matches Outcome::Failed(reason) ==> item.error->Some_0@ == reason@
            && item.format@.len() == 0,
{
}

/// A file belongs to the batch, or is watched for, if its name ends in ".kgg" and something
/// stands in front of that.
pub proof fn law_kgg_names(name: Seq<char>)
    ensures
        is_kgg_name(name) <==> name.len() > 4 && ".kgg"@.is_suffix_of(name),
{
    reveal_strlit("kgg");
    reveal_strlit(".kgg");
    assert(seq!['.'] + "kgg"@ =~= ".kgg"@);
    crate::text::law_has_extension(name, "kgg"@);
}

/// A key database is named by its extension ".db" and by "KGMusicV3" anywhere in its name.
pub proof fn law_database_names(before: Seq<char>, behind: Seq<char>, name: Seq<char>)
    ensures
        is_database_name(name) <==> {
            &&& name.len() > 3
            &&& ".db"@.is_suffix_of(name)
            &&& exists|at: int|
                0 <= at <= name.len() - 9 && #[trigger] name.subrange(at, at + 9)
                    == "KGMusicV3"@
        },
        is_database_name(before + "KGMusicV3"@ + behind + ".db"@),
{
    reveal_strlit("db");
    reveal_strlit(".db");
    reveal_strlit("KGMusicV3");
    assert(seq!['.'] + "db"@ =~= ".db"@);
    crate::text::law_has_extension(name, "db"@);
    let built = before + "KGMusicV3"@ + behind + ".db"@;
    crate::text::law_has_extension(built, "db"@);
    assert(built.subrange(built.len() - 3, built.len() as int) =~= ".db"@);
    let at = before.len() as int;
    assert(built.subrange(at, at + 9) =~= "KGMusicV3"@);
    assert(contains_text(built, "KGMusicV3"@));
}

} // verus!
