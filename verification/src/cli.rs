//! The command-line argument model of the `km` tool that the library reads: the
//! file-exclusion options shared by all commands, the options common to the
//! analysis commands, and the `score` and `ai` subcommands. Paths are held as text.
use vstd::prelude::*;

use crate::model::copy_strings;

verus! {

/// The file-exclusion rules handed to the directory walk.
#[derive(Debug)]
pub struct ExcludeFilter {
    /// Only files with these extensions are analysed (when not empty).
    pub include_ext: Vec<String>,
    /// Files with these extensions are skipped.
    pub exclude_ext: Vec<String>,
    /// Directories with these exact names are skipped, at any depth.
    pub exclude_dir: Vec<String>,
    /// Files whose path relative to the root matches one of these glob patterns are skipped.
    pub exclude: Vec<String>,
}

impl ExcludeFilter {
    /// A filter made of the given rules.
    pub fn new(
        include_ext: &Vec<String>,
        exclude_ext: &Vec<String>,
        exclude_dir: &Vec<String>,
        exclude: &Vec<String>,
    ) -> (r: ExcludeFilter)
        ensures
            r.include_ext@ == include_ext@,
            r.exclude_ext@ == exclude_ext@,
            r.exclude_dir@ == exclude_dir@,
            r.exclude@ == exclude@,
    {
        ExcludeFilter {
            include_ext: copy_strings(include_ext),
            exclude_ext: copy_strings(exclude_ext),
            exclude_dir: copy_strings(exclude_dir),
            exclude: copy_strings(exclude),
        }
    }
}

impl Default for ExcludeFilter {
    /// The filter that excludes nothing.
    fn default() -> (r: ExcludeFilter)
        ensures
            r.include_ext@.len() == 0,
            r.exclude_ext@.len() == 0,
            r.exclude_dir@.len() == 0,
            r.exclude@.len() == 0,
    {
        ExcludeFilter {
            include_ext: Vec::new(),
            exclude_ext: Vec::new(),
            exclude_dir: Vec::new(),
            exclude: Vec::new(),
        }
    }
}

/// Exclude-filter arguments shared by all commands that walk the filesystem.
#[derive(Debug)]
pub struct ExcludeArgs {
    /// `--include-ext`: only include files with these extensions (case-insensitive,
    /// leading dot optional); cannot be combined with `--exclude-ext`.
    pub include_ext: Vec<String>,
    /// `--exclude-ext`: exclude files by extension (case-insensitive, leading dot optional).
    pub exclude_ext: Vec<String>,
    /// `--exclude-dir`: exclude directories by exact name, at any depth.
    pub exclude_dir: Vec<String>,
    /// `--exclude` / `-E`: exclude files whose relative path matches a glob pattern.
    pub exclude: Vec<String>,
    /// `--list-excluded`: print the files the filter excludes, and exit.
    pub list_excluded: bool,
}

impl ExcludeArgs {
    /// The `ExcludeFilter` built from the parsed flags.
    pub fn exclude_filter(&self) -> (r: ExcludeFilter)
        ensures
            r.include_ext@ == self.include_ext@,
            r.exclude_ext@ == self.exclude_ext@,
            r.exclude_dir@ == self.exclude_dir@,
            r.exclude@ == self.exclude@,
    {
        ExcludeFilter::new(&self.include_ext, &self.exclude_ext, &self.exclude_dir, &self.exclude)
    }

    /// Whether no exclude or include flag was given.
    pub fn is_empty(&self) -> (r: bool)
        ensures
            r == (self.include_ext@.len() == 0 && self.exclude_ext@.len() == 0
                && self.exclude_dir@.len() == 0 && self.exclude@.len() == 0),
    {
        self.include_ext.is_empty() && self.exclude_ext.is_empty() && self.exclude_dir.is_empty()
            && self.exclude.is_empty()
    }
}

/// Common arguments shared by most analysis commands.
#[derive(Debug)]
pub struct CommonArgs {
    /// Directory to analyse (the current directory when absent).
    pub path: Option<String>,
    /// `--json`: output as JSON.
    pub json: bool,
    /// `--include-tests`: include test files and directories (excluded by default).
    pub include_tests: bool,
    pub exclude_args: ExcludeArgs,
}

impl CommonArgs {
    /// The `ExcludeFilter` built from the `--include-ext`, `--exclude-ext`,
    /// `--exclude-dir` and `--exclude` flags.
    pub fn exclude_filter(&self) -> (r: ExcludeFilter)
        ensures
            r.include_ext@ == self.exclude_args.include_ext@,
            r.exclude_ext@ == self.exclude_args.exclude_ext@,
            r.exclude_dir@ == self.exclude_args.exclude_dir@,
            r.exclude@ == self.exclude_args.exclude@,
    {
        self.exclude_args.exclude_filter()
    }

    /// Whether `--list-excluded` was requested.
    pub fn list_excluded(&self) -> (r: bool)
        ensures
            r == self.exclude_args.list_excluded,
    {
        self.exclude_args.list_excluded
    }
}

/// The `score` subcommands.
#[derive(Debug)]
pub enum ScoreCommands {
    /// Compare the current code health score against a git ref.
    Diff {
        /// Git ref to compare against (`HEAD` by default).
        git_ref: String,
        /// Directory to analyse (the current directory when absent).
        path: Option<String>,
        /// Output as JSON.
        json: bool,
        /// Include test files and directories.
        include_tests: bool,
        exclude_args: ExcludeArgs,
        /// Number of worst files to show in "needs attention" (10 by default).
        bottom: usize,
        /// Minimum lines for a duplicate block (6 by default).
        min_lines: usize,
        /// Scoring model: `cogcom` (the default) or `legacy`.
        model: String,
    },
}

/// The `ai` subcommands.
#[derive(Debug)]
pub enum AiCommands {
    /// Analyse the repository with a provider's model.
    Analyze {
        /// The name of the provider.
        provider: String,
        /// Directory to analyse (the current directory when absent).
        path: Option<String>,
        /// The model to use.
        model: Option<String>,
        /// File to save the report to.
        output: Option<String>,
    },
    /// Install the provider's assistant skill for `km`.
    Skill {
        /// The provider the skill is for.
        provider: String,
        /// Also configure permissions so that `km` commands run without prompting.
        with_permissions: bool,
    },
    /// Configure the provider's assistant permissions for `km` commands.
    Permissions {
        /// The provider the permissions are for.
        provider: String,
    },
}

} // verus!
