use vstd::prelude::*;

verus! {

/// Analysis settings, with the same defaults whatever the source.
///
/// Loading these settings from disk and saving them back is a caller's
/// concern; the engine only consumes the plain values held here.
#[derive(Debug, Clone)]
pub struct Config {
    /// Cyclomatic complexity thresholds.
    pub complexity: ComplexityConfig,
    /// Clone detection settings.
    pub clones: CloneConfig,
    /// File filtering settings.
    pub files: FileConfig,
}

#[derive(Debug, Clone)]
pub struct ComplexityConfig {
    /// Complexity at or above which a warning is reported.
    pub warning_threshold: usize,
    /// Complexity at or above which an error is reported.
    pub error_threshold: usize,
}

#[derive(Debug, Clone)]
pub struct CloneConfig {
    /// Minimum number of significant tokens a clone window spans.
    pub min_tokens: usize,
    /// Whether clone detection runs at all.
    pub enabled: bool,
}

#[derive(Debug, Clone)]
pub struct FileConfig {
    /// Whether directory walks honour `.gitignore` files.
    pub respect_gitignore: bool,
}

pub fn default_warning_threshold() -> (r: usize)
    ensures
        r == 10,
{
    10
}

pub fn default_error_threshold() -> (r: usize)
    ensures
        r == 20,
{
    20
}

pub fn default_min_tokens() -> (r: usize)
    ensures
        r == 30,
{
    30
}

pub fn default_true() -> (r: bool)
    ensures
        r,
{
    true
}

impl Default for ComplexityConfig {
    fn default() -> (r: Self)
        ensures
            r.warning_threshold == 10,
            r.error_threshold == 20,
    {
        Self { warning_threshold: default_warning_threshold(), error_threshold: default_error_threshold() }
    }
}

impl Default for CloneConfig {
    fn default() -> (r: Self)
        ensures
            r.min_tokens == 30,
            r.enabled,
    {
        Self { min_tokens: default_min_tokens(), enabled: default_true() }
    }
}

impl Default for FileConfig {
    fn default() -> (r: Self)
        ensures
            r.respect_gitignore,
    {
        Self { respect_gitignore: default_true() }
    }
}

impl Default for Config {
    fn default() -> (r: Self)
        ensures
            r.complexity.warning_threshold == 10,
            r.complexity.error_threshold == 20,
            r.clones.min_tokens == 30,
            r.clones.enabled,
            r.files.respect_gitignore,
    {
        Self {
            complexity: ComplexityConfig::default(),
            clones: CloneConfig::default(),
            files: FileConfig::default(),
        }
    }
}

impl Config {
    /// Fold command-line overrides into the loaded settings: a given
    /// value replaces the stored one, an absent value leaves it alone.
    pub fn merge_with_cli(
        self,
        complexity_threshold: Option<usize>,
        min_tokens: Option<usize>,
        respect_gitignore: Option<bool>,
    ) -> (r: Self)
        ensures
            r.complexity.warning_threshold == (match complexity_threshold {
                Some(t) => t,
                None => self.complexity.warning_threshold,
            }),
            r.complexity.error_threshold == self.complexity.error_threshold,
            r.clones.min_tokens == (match min_tokens {
                Some(m) => m,
                None => self.clones.min_tokens,
            }),
            r.clones.enabled == self.clones.enabled,
            r.files.respect_gitignore == (match respect_gitignore {
                Some(g) => g,
                None => self.files.respect_gitignore,
            }),
    {
        let mut merged = self;

        if let Some(threshold) = complexity_threshold {
            merged.complexity.warning_threshold = threshold;
        }

        if let Some(min) = min_tokens {
            merged.clones.min_tokens = min;
        }

        if let Some(respect) = respect_gitignore {
            merged.files.respect_gitignore = respect;
        }

        merged
    }
}

} // verus!
