//! Names of output files.

use vstd::prelude::*;
use vstd::string::StringExecFns;

verus! {

/// `text` can be a local time in the form `YYYYMMDD_HHMMSS`: a year of at least four characters, two
/// digits each for month and day, an underscore, and two digits each for hour, minute and second.
pub open spec fn is_timestamp(text: Seq<char>) -> bool {
    let n = text.len() as int;
    &&& n >= 15
    &&& text[n - 7] == '_'
    &&& forall|i: int|
        n - 11 <= i < n && i != n - 7 ==> '0' <= #[trigger] text[i] && text[i] <= '9'
}

/// The current local time as text: `chrono::Local::now`, formatted by `DateTime::format`. chrono
/// pads a year with zeros to at least four characters, and month, day, hour, minute and second to
/// two digits, so the text has the form of a timestamp. Which time it is, and in which time zone, is
/// the machine's, so no more is claimed.
#[verifier::external_body]
fn local_time(format: &str) -> (text: String)
    requires
        format@ == "%Y%m%d_%H%M%S"@,
    ensures
        is_timestamp(text@),
{
    chrono::Local::now().format(format).to_string()
}

/// A file name with a timestamp behind its stem. A file without a readable stem is called `output`.
pub open spec fn stamped(
    stem: Option<&str>,
    extension: Option<&str>,
    timestamp: Seq<char>,
) -> Seq<char> {
    let name = (match stem {
        Some(stem) => stem@,
        None => "output"@,
    }) + "_"@ + timestamp;
    match extension {
        Some(extension) => name + "."@ + extension@,
        None => name,
    }
}

/// Puts the timestamp behind the stem of a file name.
pub fn timestamped_name(stem: Option<&str>, extension: Option<&str>, timestamp: &str) -> (name:
    String)
    ensures
        name@ == stamped(stem, extension, timestamp@),
        name@ == (if stem is Some {
            stem.unwrap()@
        } else {
            "output"@
        }) + "_"@ + timestamp@ + (if extension is Some {
            "."@ + extension.unwrap()@
        } else {
            Seq::<char>::empty()
        }),
{
    let mut name = match stem {
        Some(stem) => String::from_str(stem),
        None => String::from_str("output"),
    };
    name.append("_");
    name.append(timestamp);
    if let Some(extension) = extension {
        name.append(".");
        name.append(extension);
    }
    name
}

/// Puts the current local time, `YYYYMMDD_HHMMSS`, behind the stem of a file name.
pub fn with_timestamp(stem: Option<&str>, extension: Option<&str>) -> (name: String)
    ensures
        exists|timestamp: Seq<char>|
            is_timestamp(timestamp) && name@ == #[trigger] stamped(stem, extension, timestamp),
{
    let timestamp = local_time("%Y%m%d_%H%M%S");
    timestamped_name(stem, extension, timestamp.as_str())
}

} // verus!
