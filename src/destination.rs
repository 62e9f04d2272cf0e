use vstd::prelude::*;
use vstd::string::*;
use crate::error::BackupError;
use crate::paths::{file_name, join_path, joined, last_component};

verus! {

/// A local wall-clock reading to the minute, as the archive name shows it.
#[derive(Debug, Clone, Copy)]
pub struct Timestamp {
    pub year: i32,
    pub month: u32,
    pub day: u32,
    pub hour: u32,
    pub minute: u32,
}

impl Timestamp {
    /// Each field lies in its calendar or clock range.
    pub open spec fn wf(&self) -> bool {
        &&& 1 <= self.month <= 12
        &&& 1 <= self.day <= 31
        &&& self.hour <= 23
        &&& self.minute <= 59
    }
}

/// The local time now.
///
/// Relies on chrono's `Local::now` and on the `Datelike` and `Timelike`
/// accessors, which give the month in 1..=12, the day in 1..=31, the hour in
/// 0..=23 and the minute in 0..=59. chrono panics where the system clock
/// reads before 1970.
#[verifier::external_body]
fn local_now() -> (r: Timestamp)
    ensures
        r.wf(),
{
    let t = chrono::Local::now();
    Timestamp {
        year: chrono::Datelike::year(&t),
        month: chrono::Datelike::month(&t),
        day: chrono::Datelike::day(&t),
        hour: chrono::Timelike::hour(&t),
        minute: chrono::Timelike::minute(&t),
    }
}

/// The decimal digit for `d`, which is below ten.
pub open spec fn digit(d: int) -> char {
    seq!['0', '1', '2', '3', '4', '5', '6', '7', '8', '9'][d]
}

/// `n` in decimal, without leading zeros.
pub open spec fn decimal(n: nat) -> Seq<char>
    decreases n,
{
    if n < 10 {
        seq![digit(n as int)]
    } else {
        decimal(n / 10).push(digit((n % 10) as int))
    }
}

/// `n`, below 100, as two digits.
pub open spec fn two_digits(n: int) -> Seq<char> {
    seq![digit(n / 10), digit(n % 10)]
}

/// `n`, below 10000, as four digits.
pub open spec fn four_digits(n: int) -> Seq<char> {
    seq![digit(n / 1000), digit(n / 100 % 10), digit(n / 10 % 10), digit(n % 10)]
}

/// A year as `%Y` writes it: four digits with leading zeros, and a sign
/// in front of a year outside 0..=9999.
pub open spec fn year_text(y: int) -> Seq<char> {
    if 0 <= y <= 9999 {
        four_digits(y)
    } else if y > 9999 {
        seq!['+'] + decimal(y as nat)
    } else if y >= -9999 {
        seq!['-'] + four_digits(-y)
    } else {
        seq!['-'] + decimal((-y) as nat)
    }
}

/// The stamp `YYYYMMDD_HHMM` of a reading.
pub open spec fn stamp(t: Timestamp) -> Seq<char> {
    year_text(t.year as int) + two_digits(t.month as int) + two_digits(t.day as int) + seq!['_']
        + two_digits(t.hour as int) + two_digits(t.minute as int)
}

/// The directory under which every archive is placed, before `~` is expanded.
pub open spec fn backup_root() -> Seq<char> {
    seq!['~', '/', '.', 'r', 'u', 's', 't', 'l', 'e', 'r', '_', 'b', 'a', 'c', 'k', 'u', 'p', 's', '/']
}

/// `<root><name>_<stamp>.zip`.
pub open spec fn backup_name(name: Seq<char>, t: Timestamp) -> Seq<char> {
    backup_root() + name + seq!['_'] + stamp(t) + seq!['.', 'z', 'i', 'p']
}

fn digit_str(d: u64) -> (r: &'static str)
    requires
        d < 10,
    ensures
        r@ == seq![digit(d as int)],
{
    match d {
        0 => {
            proof {
                reveal_strlit("0");
            }
            "0"
        },
        1 => {
            proof {
                reveal_strlit("1");
            }
            "1"
        },
        2 => {
            proof {
                reveal_strlit("2");
            }
            "2"
        },
        3 => {
            proof {
                reveal_strlit("3");
            }
            "3"
        },
        4 => {
            proof {
                reveal_strlit("4");
            }
            "4"
        },
        5 => {
            proof {
                reveal_strlit("5");
            }
            "5"
        },
        6 => {
            proof {
                reveal_strlit("6");
            }
            "6"
        },
        7 => {
            proof {
                reveal_strlit("7");
            }
            "7"
        },
        8 => {
            proof {
                reveal_strlit("8");
            }
            "8"
        },
        _ => {
            proof {
                reveal_strlit("9");
            }
            "9"
        },
    }
}

fn push_decimal(s: &mut String, n: u64)
    ensures
        final(s)@ == old(s)@ + decimal(n as nat),
    decreases n,
{
    if n < 10 {
        s.append(digit_str(n));
    } else {
        push_decimal(s, n / 10);
        s.append(digit_str(n % 10));
        proof {
            assert(decimal(n as nat) == decimal((n / 10) as nat).push(digit((n % 10) as int)));
        }
    }
}

fn push_two(s: &mut String, n: u32)
    requires
        n < 100,
    ensures
        final(s)@ == old(s)@ + two_digits(n as int),
{
    let n = n as u64;
    s.append(digit_str(n / 10));
    s.append(digit_str(n % 10));
    assert(final(s)@ =~= old(s)@ + two_digits(n as int));
}

fn push_four(s: &mut String, n: u64)
    requires
        n < 10000,
    ensures
        final(s)@ == old(s)@ + four_digits(n as int),
{
    s.append(digit_str(n / 1000));
    s.append(digit_str(n / 100 % 10));
    s.append(digit_str(n / 10 % 10));
    s.append(digit_str(n % 10));
    assert(final(s)@ =~= old(s)@ + four_digits(n as int));
}

fn push_year(s: &mut String, y: i32)
    ensures
        final(s)@ == old(s)@ + year_text(y as int),
{
    let wide = y as i64;
    if 0 <= wide && wide <= 9999 {
        push_four(s, wide as u64);
    } else if wide > 9999 {
        proof {
            reveal_strlit("+");
        }
        s.append("+");
        push_decimal(s, wide as u64);
        assert(final(s)@ =~= old(s)@ + year_text(y as int));
    } else if wide >= -9999 {
        proof {
            reveal_strlit("-");
        }
        s.append("-");
        push_four(s, (-wide) as u64);
        assert(final(s)@ =~= old(s)@ + year_text(y as int));
    } else {
        proof {
            reveal_strlit("-");
        }
        s.append("-");
        push_decimal(s, (-wide) as u64);
        assert(final(s)@ =~= old(s)@ + year_text(y as int));
    }
}

/// The stamp `YYYYMMDD_HHMM` of a reading.
pub fn stamp_text(t: &Timestamp) -> (r: String)
    requires
        t.wf(),
    ensures
        r@ == stamp(*t),
{
    let mut s = String::new();
    push_year(&mut s, t.year);
    push_two(&mut s, t.month);
    push_two(&mut s, t.day);
    proof {
        reveal_strlit("_");
    }
    s.append("_");
    push_two(&mut s, t.hour);
    push_two(&mut s, t.minute);
    assert(s@ =~= stamp(*t));
    s
}

/// The archive path for a source named `name` at reading `t`, under `home`.
pub open spec fn destination(name: Seq<char>, t: Timestamp, home: Seq<char>) -> Seq<char> {
    joined(home, backup_name(name, t).subrange(2, backup_name(name, t).len() as int))
}

/// The archive's path, before `~` is expanded, for source `directory` at
/// reading `at`: its final component and the stamp, under the backup root.
pub fn backup_name_at(directory: &str, at: &Timestamp) -> (r: Result<String, BackupError>)
    requires
        at.wf(),
    ensures
        last_component(directory@) is None ==> r matches Err(BackupError::InvalidSourceDirectory),
        last_component(directory@) matches Some(name) ==> (r matches Ok(p) && p@ == backup_name(
            name,
            *at,
        )),
{
    let name = match file_name(directory) {
        Some(n) => n,
        None => return Err(BackupError::InvalidSourceDirectory),
    };
    proof {
        reveal_strlit("~/.rustler_backups/");
        reveal_strlit("_");
        reveal_strlit(".zip");
    }
    let mut p = String::from_str("~/.rustler_backups/");
    p.append(name.as_str());
    p.append("_");
    let st = stamp_text(at);
    p.append(st.as_str());
    p.append(".zip");
    assert(p@ =~= backup_name(name@, *at));
    Ok(p)
}

/// The archive's path, before `~` is expanded, for source `directory` at the
/// local time now.
pub fn format_backup_name(directory: &str) -> (r: Result<String, BackupError>)
    ensures
        last_component(directory@) is None ==> r matches Err(BackupError::InvalidSourceDirectory),
        last_component(directory@) matches Some(name) ==> (r matches Ok(p) && exists|t: Timestamp|
            t.wf() && p@ == #[trigger] backup_name(name, t)),
{
    let now = local_now();
    backup_name_at(directory, &now)
}

/// A path that begins with the home marker: `~` alone or `~/`.
pub open spec fn home_marked(p: Seq<char>) -> bool {
    p.len() > 0 && p[0] == '~' && (p.len() == 1 || p[1] == '/')
}

/// `s` without its leading separators.
pub open spec fn strip_seps(s: Seq<char>) -> Seq<char>
    decreases s.len(),
{
    if s.len() > 0 && s[0] == '/' {
        strip_seps(s.drop_first())
    } else {
        s
    }
}

/// What follows the home marker of `p`, joined onto `home`.
pub open spec fn expanded(p: Seq<char>, home: Seq<char>) -> Seq<char> {
    joined(home, strip_seps(p.drop_first()))
}

/// Replaces a leading home marker of `path` with `home`. A path without the
/// marker is returned as it is; one with it fails where no home is known.
pub fn expand_home_directory(path: &str, home: Option<&str>) -> (r: Result<String, BackupError>)
    ensures
        !home_marked(path@) ==> (r matches Ok(p) && p@ == path@),
        home_marked(path@) && home is None ==> r matches Err(BackupError::MissingHomeDirectory),
        home_marked(path@) ==> (home matches Some(h) ==> (r matches Ok(p) && p@ == expanded(
            path@,
            h@,
        ))),
{
    let n = path.unicode_len();
    if n == 0 || path.get_char(0) != '~' || (n > 1 && path.get_char(1) != '/') {
        return Ok(String::from_str(path));
    }
    let h = match home {
        Some(h) => h,
        None => return Err(BackupError::MissingHomeDirectory),
    };
    let mut i: usize = 1;
    while i < n && path.get_char(i) == '/'
        invariant
            1 <= i <= n,
            n == path@.len(),
            strip_seps(path@.drop_first()) == strip_seps(path@.subrange(i as int, n as int)),
        decreases n - i,
    {
        assert(path@.subrange(i as int, n as int).drop_first() =~= path@.subrange(
            i + 1,
            n as int,
        ));
        i = i + 1;
    }
    assert(path@.drop_first() =~= path@.subrange(1, n as int));
    let rest = path.substring_char(i, n);
    Ok(join_path(h, rest))
}

/// The source directory: the first argument after the program's name, else
/// the working directory, which fails where it has no textual form.
pub fn determine_directory(args: &Vec<String>, cwd: Option<String>) -> (r: Result<
    String,
    BackupError,
>)
    ensures
        args@.len() > 1 ==> (r matches Ok(d) && d@ == args@[1]@),
        args@.len() <= 1 ==> (cwd matches Some(c) ==> (r matches Ok(d) && d@ == c@)),
        args@.len() <= 1 && cwd is None ==> r matches Err(BackupError::InvalidSourceDirectory),
{
    if args.len() > 1 {
        Ok(args[1].clone())
    } else {
        match cwd {
            Some(c) => Ok(c),
            None => Err(BackupError::InvalidSourceDirectory),
        }
    }
}

/// The absolute path of the archive for source `directory` at reading `at`,
/// with the backup root placed under `home`.
pub fn backup_destination(directory: &str, at: &Timestamp, home: Option<&str>) -> (r: Result<
    String,
    BackupError,
>)
    requires
        at.wf(),
    ensures
        last_component(directory@) is None ==> r matches Err(BackupError::InvalidSourceDirectory),
        last_component(directory@) is Some && home is None ==> r matches Err(
            BackupError::MissingHomeDirectory,
        ),
        last_component(directory@) matches Some(name) ==> (home matches Some(h) ==> (r matches Ok(
            p,
        ) && p@ == destination(name, *at, h@))),
{
    let name = backup_name_at(directory, at)?;
    let r = expand_home_directory(name.as_str(), home);
    proof {
        if let Some(n) = last_component(directory@) {
            let b = backup_name(n, *at);
            assert(b[0] == '~' && b[1] == '/' && b[2] == '.');
            assert(b.drop_first().drop_first() =~= b.subrange(2, b.len() as int));
            assert(strip_seps(b.drop_first().drop_first()) == b.drop_first().drop_first());
            assert(strip_seps(b.drop_first()) == b.drop_first().drop_first());
        }
    }
    r
}

} // verus!
