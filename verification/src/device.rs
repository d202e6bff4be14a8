//! Device-aware sizing of the read pool: which mount holds the scan root,
//! whether its disk is rotational, and how many readers that calls for.

use vstd::prelude::*;
use vstd::utf8::encode_utf8;
use crate::text::{split_on, split_char, text_lines, lines_of, trim, trim_text, text_eq};

verus! {

/// A mount point covers `path` when it is the root, the path itself, or a
/// directory the path lies below.
pub open spec fn covers(mount_point: Seq<char>, path: Seq<char>) -> bool {
    ||| mount_point == "/"@
    ||| path == mount_point
    ||| (path.len() > mount_point.len() && path.take(mount_point.len() as int) == mount_point
        && path[mount_point.len() as int] == '/')
}

/// The fields of one mountinfo line, separated by single spaces.
pub open spec fn line_fields(line: Seq<char>) -> Seq<Seq<char>> {
    split_on(line, ' ')
}

/// Over the first `n` lines: the byte length and device id of the covering
/// mount point with the longest byte length, the first one on a tie.
pub open spec fn best_mount(lines: Seq<Seq<char>>, path: Seq<char>, n: int) -> Option<(nat, Seq<char>)>
    decreases n,
{
    if n <= 0 {
        None
    } else {
        let prev = best_mount(lines, path, n - 1);
        let f = line_fields(lines[n - 1]);
        let mp = f[4];
        let len = encode_utf8(mp).len();
        if covers(mp, path) && (prev is None || len > (prev->0).0) {
            Some((len, f[2]))
        } else {
            prev
        }
    }
}

/// The `major:minor` device id of the mount covering `path` according to
/// `/proc/self/mountinfo` text: the covering mount point with the longest
/// name, so nested mounts win. Every line needs at least five
/// space-separated fields; if one has fewer, the text is not mountinfo.
pub open spec fn mount_device(mountinfo: Seq<char>, path: Seq<char>) -> Option<Seq<char>> {
    let lines = text_lines(mountinfo);
    if exists|k: int| 0 <= k < lines.len() && line_fields(#[trigger] lines[k]).len() < 5 {
        None
    } else {
        match best_mount(lines, path, lines.len() as int) {
            Some((_, id)) => Some(id),
            None => None,
        }
    }
}

/// Finds the device id of the mount covering `path` in mountinfo text.
pub fn mount_device_id(mountinfo: &str, path: &str) -> (r: Option<String>)
    ensures
        match mount_device(mountinfo@, path@) {
            Some(id) => r matches Some(s) && s@ == id,
            None => r is None,
        },
{
    let lines = lines_of(mountinfo);
    let ghost lv = lines@.map_values(|x: String| x@);
    let slash = "/";
    proof {
        reveal_strlit("/");
    }
    let mut best: Option<(usize, String)> = None;
    let mut i: usize = 0;
    while i < lines.len()
        invariant
            lv == lines@.map_values(|x: String| x@),
            lv == text_lines(mountinfo@),
            slash@ == "/"@,
            i <= lines@.len(),
            forall|k: int| 0 <= k < i ==> line_fields(#[trigger] lv[k]).len() >= 5,
            match best_mount(lv, path@, i as int) {
                Some((len, id)) => best matches Some((bl, bs)) && bl == len && bs@ == id,
                None => best is None,
            },
        decreases lines@.len() - i,
    {
        let fields = split_char(lines[i].as_str(), ' ');
        assert(lv[i as int] == lines@[i as int]@);
        let ghost fv = fields@.map_values(|x: String| x@);
        assert(fv == line_fields(lv[i as int]));
        if fields.len() < 5 {
            proof {
                assert(line_fields(lv[i as int]).len() < 5);
            }
            return None;
        }
        let major_minor = fields[2].as_str();
        let mount_point = fields[4].as_str();
        assert(fv[2] == major_minor@ && fv[4] == mount_point@);
        let prefix_ok = {
            let mlen = mount_point.unicode_len();
            let plen = path.unicode_len();
            if plen > mlen {
                text_eq(path.substring_char(0, mlen), mount_point) && path.get_char(mlen) == '/'
            } else {
                false
            }
        };
        assert(prefix_ok == (path@.len() > mount_point@.len() && path@.take(mount_point@.len() as int)
            == mount_point@ && path@[mount_point@.len() as int] == '/')) by {
            if path@.len() > mount_point@.len() {
                assert(path@.subrange(0, mount_point@.len() as int) =~= path@.take(mount_point@.len() as int));
            }
        }
        let covered = text_eq(mount_point, slash) || text_eq(path, mount_point) || prefix_ok;
        assert(covered == covers(mount_point@, path@));
        let len = mount_point.as_bytes().len();
        assert(len == encode_utf8(mount_point@).len());
        let replace = match &best {
            Some((bl, _)) => len > *bl,
            None => true,
        };
        if covered && replace {
            best = Some((len, major_minor.to_owned()));
        }
        i = i + 1;
    }
    proof {
        assert(lv.len() == lines@.len());
    }
    match best {
        Some((_, id)) => Some(id),
        None => None,
    }
}

/// The rotational flag of a sysfs `queue/rotational` file.
pub open spec fn rotational_flag(contents: Seq<char>) -> Option<bool> {
    if trim(contents) == "1"@ {
        Some(true)
    } else if trim(contents) == "0"@ {
        Some(false)
    } else {
        None
    }
}

/// Reads the rotational flag: `1` is a spinning disk, `0` is not, anything
/// else is unknown. Surrounding white space is ignored.
pub fn parse_rotational(contents: &str) -> (r: Option<bool>)
    ensures
        r == rotational_flag(contents@),
{
    let t = trim_text(contents);
    let one = "1";
    let zero = "0";
    proof {
        reveal_strlit("1");
        reveal_strlit("0");
    }
    if text_eq(t.as_str(), one) {
        Some(true)
    } else if text_eq(t.as_str(), zero) {
        Some(false)
    } else {
        None
    }
}

/// The number of readers for a scan: four per core, at most 64, on a
/// rotational disk, where more requests in flight hide seek latency; one
/// per core otherwise.
pub fn io_threads_for(cores: usize, rotational: Option<bool>) -> (r: usize)
    ensures
        r == (if rotational == Some(true) {
            if cores * 4 <= 64 { cores * 4 } else { 64 }
        } else {
            cores as int
        }),
{
    if rotational == Some(true) {
        if cores <= 16 {
            cores * 4
        } else {
            64
        }
    } else {
        cores
    }
}

} // verus!
