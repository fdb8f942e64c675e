//! Resumable painting sessions: progress through a plan, and where sessions are kept.

use vstd::prelude::*;
use vstd::string::StringExecFns;
use crate::painting::{PaintPlan, ScreenRect};
use crate::strings::{decimal, push_char, push_decimal};

verus! {

/// A resumable painting session.
#[derive(Debug, Clone)]
pub struct Session {
    pub plan: PaintPlan,
    pub progress: usize,
    pub canvas_region: ScreenRect,
    pub image_path: String,
    pub img_width: u32,
    pub img_height: u32,
}

/// What `Path::file_stem` gives for a path: its final component without the
/// extension, if it has a final component. Which characters separate components
/// is fixed by the platform the crate is built for.
pub uninterp spec fn path_file_stem(path: Seq<char>) -> Option<Seq<char>>;

/// What `Path::join` gives: `dir` with `part` appended as a further component,
/// by the path rules of the platform the crate is built for.
pub uninterp spec fn path_join(dir: Seq<char>, part: Seq<char>) -> Seq<char>;

/// The file stem of a path.
///
/// Calls `Path::file_stem` on the path and converts the stem back to a string (it
/// always converts, as it comes from a `&str`); the contract names the result.
#[verifier::external_body]
fn file_stem(path: &str) -> (r: Option<String>)
    ensures
        r is Some <==> path_file_stem(path@) is Some,
        r is Some ==> r->0@ == path_file_stem(path@)->0,
{
    std::path::Path::new(path).file_stem().and_then(|s| s.to_str()).map(|s| s.to_string())
}

/// A path with a further component appended.
///
/// Calls `Path::join` and converts the result back to a string; the contract
/// names the result.
#[verifier::external_body]
fn join_path(dir: &str, part: &str) -> (r: String)
    ensures
        r@ == path_join(dir@, part@),
{
    std::path::Path::new(dir).join(part).to_string_lossy().into_owned()
}

/// The stem used in a session file name: the image's file stem, or `unknown`.
pub open spec fn session_stem(image_path: Seq<char>) -> Seq<char> {
    match path_file_stem(image_path) {
        Some(s) => s,
        None => "unknown"@,
    }
}

/// Session file name for an image and a timestamp: `STEM_TIMESTAMP.json`.
pub open spec fn session_file_name(image_path: Seq<char>, timestamp: u64) -> Seq<char> {
    session_stem(image_path) + seq!['_'] + decimal(timestamp as nat) + ".json"@
}

impl Session {
    pub fn new(
        plan: PaintPlan,
        canvas_region: ScreenRect,
        image_path: String,
        img_width: u32,
        img_height: u32,
    ) -> (s: Self)
        ensures
            s.plan == plan,
            s.progress == 0,
            s.canvas_region == canvas_region,
            s.image_path == image_path,
            s.img_width == img_width,
            s.img_height == img_height,
    {
        Session { plan, progress: 0, canvas_region, image_path, img_width, img_height }
    }

    /// Whether every command of the plan has been executed.
    pub fn is_complete(&self) -> (done: bool)
        ensures
            done == (self.progress >= self.plan.commands@.len()),
    {
        self.progress >= self.plan.commands.len()
    }

    /// Commands still to execute (zero once progress reaches the end).
    pub fn remaining_commands(&self) -> (n: usize)
        ensures
            n == if self.progress >= self.plan.commands@.len() {
                0
            } else {
                self.plan.commands@.len() - self.progress
            },
    {
        self.plan.commands.len().saturating_sub(self.progress)
    }

    /// The sessions directory: `.rustbrush/sessions` under the home directory if one
    /// is known, else under the working directory.
    pub fn default_sessions_dir(home: Option<&str>) -> (dir: String)
        ensures
            dir@ == path_join(
                match home {
                    Some(h) => path_join(h@, ".rustbrush"@),
                    None => ".rustbrush"@,
                },
                "sessions"@,
            ),
    {
        let base = match home {
            Some(h) => join_path(h, ".rustbrush"),
            None => String::from_str(".rustbrush"),
        };
        join_path(base.as_str(), "sessions")
    }

    /// Session file path for an image: `STEM_TIMESTAMP.json` in `sessions_dir`.
    pub fn generate_path(sessions_dir: &str, image_path: &str, timestamp: u64) -> (path: String)
        ensures
            path@ == path_join(sessions_dir@, session_file_name(image_path@, timestamp)),
    {
        let mut name = match file_stem(image_path) {
            Some(stem) => stem,
            None => String::from_str("unknown"),
        };
        push_char(&mut name, '_');
        push_decimal(&mut name, timestamp);
        name.append(".json");
        assert(name@ =~= session_file_name(image_path@, timestamp));
        join_path(sessions_dir, name.as_str())
    }
}

} // verus!
