//! Configuration: its shape, the defaults an empty setting falls back to,
//! and the `~/` expansion of configured paths.

use vstd::prelude::*;
use crate::text::{chars_of, push_char, push_range, push_str};

verus! {

/// The daemon's settings, as `config.toml` holds them.
#[derive(Debug, Clone)]
pub struct Config {
    pub capture: CaptureConfig,
    pub output: OutputConfig,
    pub daemon: DaemonConfig,
}

#[derive(Debug, Clone)]
pub struct CaptureConfig {
    pub interval_seconds: u64,
    /// "all" or "primary".
    pub monitors: String,
}

#[derive(Debug, Clone)]
pub struct OutputConfig {
    pub dir: String,
}

#[derive(Debug, Clone)]
pub struct DaemonConfig {
    pub pid_file: String,
    pub log_file: String,
}

/// A directory the defaults need that the environment does not provide.
#[derive(Debug, PartialEq, Eq, Structural)]
pub enum ConfigError {
    /// The per-user project directories (XDG) cannot be resolved.
    NoProjectDirs,
}

/// `base` joined with the relative or absolute path `rest`, as
/// `PathBuf::push` does on Unix: an absolute `rest` replaces `base`;
/// otherwise a `/` goes between them unless `base` is empty or ends in one.
pub open spec fn join_path(base: Seq<char>, rest: Seq<char>) -> Seq<char> {
    if rest.len() > 0 && rest[0] == '/' {
        rest
    } else if base.len() > 0 && base.last() != '/' {
        base + seq!['/'] + rest
    } else {
        base + rest
    }
}

/// Exec counterpart of `join_path`.
pub fn join(base: &str, rest: &str) -> (r: String)
    ensures
        r@ == join_path(base@, rest@),
{
    let b = chars_of(base);
    let t = chars_of(rest);
    if t.len() > 0 && t[0] == '/' {
        let mut out = String::new();
        push_str(&mut out, rest);
        return out;
    }
    let mut out = String::new();
    push_str(&mut out, base);
    if b.len() > 0 && b[b.len() - 1] != '/' {
        push_char(&mut out, '/');
    }
    push_str(&mut out, rest);
    out
}

/// Whether a configured path starts with `~/`.
pub open spec fn home_relative(s: Seq<char>) -> bool {
    s.len() >= 2 && s[0] == '~' && s[1] == '/'
}

/// A configured path with a leading `~/` put under `home`, when the home
/// directory is known; any other path as written.
pub open spec fn expanded(s: Seq<char>, home: Option<Seq<char>>) -> Seq<char> {
    if home_relative(s) && home is Some {
        join_path(home->0, s.skip(2))
    } else {
        s
    }
}

/// Exec counterpart of `expanded`.
pub fn expand_with_home(s: &str, home: Option<&str>) -> (r: String)
    ensures
        r@ == expanded(
            s@,
            match home {
                Some(h) => Some(h@),
                None => None,
            },
        ),
{
    let cs = chars_of(s);
    if cs.len() >= 2 && cs[0] == '~' && cs[1] == '/' {
        match home {
            Some(h) => {
                let mut rest = String::new();
                push_range(&mut rest, &cs, 2, cs.len());
                assert(cs@.subrange(2, cs.len() as int) =~= s@.skip(2));
                return join(h, rest.as_str());
            },
            None => {},
        }
    }
    let mut out = String::new();
    push_str(&mut out, s);
    out
}

/// The user's home directory (`directories::BaseDirs::new()` then
/// `home_dir()`), as text. Nothing is stated: it depends on the environment.
#[verifier::external_body]
fn home_dir() -> (r: Option<String>) {
    match directories::BaseDirs::new() {
        Some(b) => Some(b.home_dir().to_string_lossy().into_owned()),
        None => None,
    }
}

/// The user's pictures directory (`directories::UserDirs::new()` then
/// `picture_dir()`), as text. Nothing is stated: it depends on the environment.
#[verifier::external_body]
fn picture_dir() -> (r: Option<String>) {
    match directories::UserDirs::new() {
        Some(u) => match u.picture_dir() {
            Some(p) => Some(p.to_string_lossy().into_owned()),
            None => None,
        },
        None => None,
    }
}

/// Whether `s` is a non-empty run of lowercase ASCII letters, a name that
/// `directories` uses unchanged as the project's path fragment.
pub open spec fn plain_app_name(s: Seq<char>) -> bool {
    s.len() > 0 && forall|i: int| 0 <= i < s.len() ==> 'a' <= #[trigger] s[i] <= 'z'
}

/// The project directories of application `app`
/// (`directories::ProjectDirs::from("", "", app)`): its cache and its config
/// directory, as text. Stated: on Linux, which this daemon targets, each is
/// a base directory (from the XDG variables or the home directory) joined
/// with the project path, which for a plain lowercase name is the name
/// itself (directories' `lin.rs`). Whether there are any, and the bases,
/// depend on the environment.
#[verifier::external_body]
fn project_dirs(app: &str) -> (r: Option<(String, String)>)
    ensures
        plain_app_name(app@) ==> (r matches Some((c, _)) ==> exists|b: Seq<char>|
            c@ == #[trigger] join_path(b, app@)),
        plain_app_name(app@) ==> (r matches Some((_, k)) ==> exists|b: Seq<char>|
            k@ == #[trigger] join_path(b, app@)),
{
    match directories::ProjectDirs::from("", "", app) {
        Some(d) => Some(
            (
                d.cache_dir().to_string_lossy().into_owned(),
                d.config_dir().to_string_lossy().into_owned(),
            ),
        ),
        None => None,
    }
}

pub open spec fn app_name() -> Seq<char> {
    seq!['b', 'l', 'i', 'n', 'k']
}

/// The default output directory: `blink` under the pictures directory, else
/// `output` under the cache directory.
pub open spec fn default_output_from(pictures: Option<Seq<char>>, cache: Option<Seq<char>>) -> Option<
    Seq<char>,
> {
    match pictures {
        Some(p) => Some(join_path(p, app_name())),
        None => match cache {
            Some(c) => Some(join_path(c, output_name())),
            None => None,
        },
    }
}

pub open spec fn output_name() -> Seq<char> {
    seq!['o', 'u', 't', 'p', 'u', 't']
}

pub open spec fn pid_name() -> Seq<char> {
    seq!['b', 'l', 'i', 'n', 'k', '.', 'p', 'i', 'd']
}

pub open spec fn log_name() -> Seq<char> {
    seq!['b', 'l', 'i', 'n', 'k', '.', 'l', 'o', 'g']
}

pub open spec fn opt_seq(o: Option<&str>) -> Option<Seq<char>> {
    match o {
        Some(s) => Some(s@),
        None => None,
    }
}

/// The configuration once every empty path has its default, given the
/// pictures and cache directories; `None` where a needed one is missing.
pub open spec fn finalized(
    out_dir: Seq<char>,
    pid_file: Seq<char>,
    log_file: Seq<char>,
    pictures: Option<Seq<char>>,
    cache: Option<Seq<char>>,
) -> Option<(Seq<char>, Seq<char>, Seq<char>)> {
    let o = if out_dir.len() == 0 {
        default_output_from(pictures, cache)
    } else {
        Some(out_dir)
    };
    let p = if pid_file.len() == 0 {
        match cache {
            Some(c) => Some(join_path(c, pid_name())),
            None => None,
        }
    } else {
        Some(pid_file)
    };
    let l = if log_file.len() == 0 {
        match cache {
            Some(c) => Some(join_path(c, log_name())),
            None => None,
        }
    } else {
        Some(log_file)
    };
    if o is Some && p is Some && l is Some {
        Some((o->0, p->0, l->0))
    } else {
        None
    }
}

/// What a failed finalizing leaves: the PID and log files as they were,
/// the output directory filled in when it was empty and has a default.
pub open spec fn finalize_failed(
    old: Config,
    new: Config,
    pictures: Option<Seq<char>>,
    cache: Option<Seq<char>>,
) -> bool {
    &&& new.daemon.pid_file@ == old.daemon.pid_file@
    &&& new.daemon.log_file@ == old.daemon.log_file@
    &&& new.output.dir@ == (if old.output.dir@.len() == 0 && default_output_from(pictures, cache) is Some {
        default_output_from(pictures, cache)->0
    } else {
        old.output.dir@
    })
}

/// `new` is `old` finalized with the given directories when `ok`; `ok`
/// exactly when those directories give every default that is needed;
/// otherwise `new` is what the failed attempt left.
pub open spec fn finalize_outcome(
    old: Config,
    new: Config,
    ok: bool,
    pictures: Option<Seq<char>>,
    cache: Option<Seq<char>>,
) -> bool {
    let f = finalized(old.output.dir@, old.daemon.pid_file@, old.daemon.log_file@, pictures, cache);
    &&& ok <==> f is Some
    &&& ok ==> f == Some((new.output.dir@, new.daemon.pid_file@, new.daemon.log_file@))
    &&& !ok ==> finalize_failed(old, new, pictures, cache)
}

/// Whether `cache`, when there is one, is a directory named after the project.
pub open spec fn project_cache(cache: Option<Seq<char>>) -> bool {
    cache matches Some(c) ==> exists|b: Seq<char>| c == #[trigger] join_path(b, app_name())
}

/// A path joined onto a non-empty name is not empty.
proof fn lemma_join_nonempty(base: Seq<char>, rest: Seq<char>)
    requires
        rest.len() > 0,
    ensures
        join_path(base, rest).len() > 0,
{
}

/// Finalizing is idempotent: a configuration whose paths were filled in
/// keeps them when finalized again, whatever directories the environment
/// gives the second time.
pub proof fn lemma_finalize_idempotent(
    out_dir: Seq<char>,
    pid_file: Seq<char>,
    log_file: Seq<char>,
    pictures: Option<Seq<char>>,
    cache: Option<Seq<char>>,
    pictures2: Option<Seq<char>>,
    cache2: Option<Seq<char>>,
)
    requires
        finalized(out_dir, pid_file, log_file, pictures, cache) is Some,
    ensures
        ({
            let (o, p, l) = finalized(out_dir, pid_file, log_file, pictures, cache)->0;
            finalized(o, p, l, pictures2, cache2) == Some((o, p, l))
        }),
{
    match pictures {
        Some(x) => lemma_join_nonempty(x, app_name()),
        None => {},
    }
    match cache {
        Some(c) => {
            lemma_join_nonempty(c, output_name());
            lemma_join_nonempty(c, pid_name());
            lemma_join_nonempty(c, log_name());
        },
        None => {},
    }
}

impl Config {
    /// Fills each empty path with its default, the pictures and cache
    /// directories given; on error the paths before the failing one are set.
    pub fn finalize_with(&mut self, pictures: Option<&str>, cache: Option<&str>) -> (r: Result<
        (),
        ConfigError,
    >)
        ensures
            final(self).capture == old(self).capture,
            r is Ok <==> finalized(
                old(self).output.dir@,
                old(self).daemon.pid_file@,
                old(self).daemon.log_file@,
                opt_seq(pictures),
                opt_seq(cache),
            ) is Some,
            r is Ok ==> finalized(
                old(self).output.dir@,
                old(self).daemon.pid_file@,
                old(self).daemon.log_file@,
                opt_seq(pictures),
                opt_seq(cache),
            ) == Some((final(self).output.dir@, final(self).daemon.pid_file@, final(self).daemon.log_file@)),
            r is Err ==> finalize_failed(*old(self), *final(self), opt_seq(pictures), opt_seq(cache)),
    {
        proof {
            reveal_strlit("blink");
            reveal_strlit("output");
            reveal_strlit("blink.pid");
            reveal_strlit("blink.log");
        }
        assert("blink"@ =~= app_name());
        assert("output"@ =~= output_name());
        assert("blink.pid"@ =~= pid_name());
        assert("blink.log"@ =~= log_name());
        if self.output.dir.as_str().unicode_len() == 0 {
            match pictures {
                Some(p) => {
                    self.output.dir = join(p, "blink");
                },
                None => match cache {
                    Some(c) => {
                        self.output.dir = join(c, "output");
                    },
                    None => {
                        return Err(ConfigError::NoProjectDirs);
                    },
                },
            }
        }
        if self.daemon.pid_file.as_str().unicode_len() == 0 {
            match cache {
                Some(c) => {
                    self.daemon.pid_file = join(c, "blink.pid");
                },
                None => {
                    return Err(ConfigError::NoProjectDirs);
                },
            }
        }
        if self.daemon.log_file.as_str().unicode_len() == 0 {
            match cache {
                Some(c) => {
                    self.daemon.log_file = join(c, "blink.log");
                },
                None => {
                    return Err(ConfigError::NoProjectDirs);
                },
            }
        }
        Ok(())
    }

    /// Fills each empty path with its default from the user's directories:
    /// the output directory (`blink` under Pictures, else `output` under the
    /// cache), the PID file and the log file (under the cache). The outcome is
    /// that of `finalize_with` on the directories the environment gives, the
    /// cache being the project `blink`'s.
    pub fn finalize(&mut self) -> (r: Result<(), ConfigError>)
        ensures
            final(self).capture == old(self).capture,
            exists|pictures: Option<Seq<char>>, cache: Option<Seq<char>>|
                project_cache(cache) && #[trigger] finalize_outcome(
                    *old(self),
                    *final(self),
                    r is Ok,
                    pictures,
                    cache,
                ),
    {
        proof {
            reveal_strlit("blink");
        }
        assert("blink"@ =~= app_name());
        let pictures = picture_dir();
        let cache = match project_dirs("blink") {
            Some((c, _)) => Some(c),
            None => None,
        };
        let p: Option<&str> = match &pictures {
            Some(x) => Some(x.as_str()),
            None => None,
        };
        let c: Option<&str> = match &cache {
            Some(x) => Some(x.as_str()),
            None => None,
        };
        let r = self.finalize_with(p, c);
        assert(project_cache(opt_seq(c)));
        assert(finalize_outcome(*old(self), *self, r is Ok, opt_seq(p), opt_seq(c)));
        r
    }

    /// The output directory, a leading `~/` put under the home directory.
    pub fn output_dir(&self) -> (r: String)
        ensures
            expands_to(self.output.dir@, r@),
    {
        expand(self.output.dir.as_str())
    }

    /// The PID file, a leading `~/` put under the home directory.
    pub fn pid_file(&self) -> (r: String)
        ensures
            expands_to(self.daemon.pid_file@, r@),
    {
        expand(self.daemon.pid_file.as_str())
    }
}

/// `r` is what `s` expands to under some home directory, or `s` itself.
pub open spec fn expands_to(s: Seq<char>, r: Seq<char>) -> bool {
    r == expanded(s, None) || exists|h: Seq<char>| r == #[trigger] expanded(s, Some(h))
}

/// A configured path with a leading `~/` put under the user's home directory
/// when the environment gives one; any other path as written.
pub fn expand(s: &str) -> (r: String)
    ensures
        expands_to(s@, r@),
{
    match home_dir() {
        Some(h) => {
            let r = expand_with_home(s, Some(h.as_str()));
            assert(r@ == expanded(s@, Some(h@)));
            r
        },
        None => expand_with_home(s, None),
    }
}

pub open spec fn config_file_name() -> Seq<char> {
    seq!['c', 'o', 'n', 'f', 'i', 'g', '.', 't', 'o', 'm', 'l']
}

/// Where the configuration file lives given the project's config directory:
/// `config.toml` in it, or no path when there is no such directory.
pub fn config_path_in(config_dir: Option<&str>) -> (r: Result<String, ConfigError>)
    ensures
        match r {
            Ok(p) => config_dir matches Some(d) && p@ == join_path(d@, config_file_name()),
            Err(e) => config_dir is None && e == ConfigError::NoProjectDirs,
        },
{
    proof {
        reveal_strlit("config.toml");
    }
    assert("config.toml"@ =~= config_file_name());
    match config_dir {
        Some(d) => Ok(join(d, "config.toml")),
        None => Err(ConfigError::NoProjectDirs),
    }
}

/// Where the configuration file lives: `config.toml` in the project's
/// config directory, as `config_path_in` gives it for the directory that
/// the environment gives project `blink`.
pub fn config_path() -> (r: Result<String, ConfigError>)
    ensures
        r matches Ok(p) ==> exists|b: Seq<char>|
            p@ == join_path(#[trigger] join_path(b, app_name()), config_file_name()),
        r matches Err(e) ==> e == ConfigError::NoProjectDirs,
{
    proof {
        reveal_strlit("blink");
    }
    assert("blink"@ =~= app_name());
    match project_dirs("blink") {
        Some((_, cfg)) => config_path_in(Some(cfg.as_str())),
        None => config_path_in(None),
    }
}

} // verus!
