//! Commit signatures: an author or committer identity with a timestamp and
//! timezone, its canonical text form, and the right-to-left parser for it.

use vstd::prelude::*;
use crate::error::VcsError;
use crate::num::{parse_radix_chars, radix_chars, radix_rep, spec_parse_radix_u64};
use crate::strutil::{
    chars_of_str, last_index_of, lemma_last_index_of_props, push_char, rfind_char, spec_trim,
    string_of_chars, substring, trim,
};
use vstd::string::StrSliceExecFns;
use vstd::string::StringExecFns;

verus! {

/// An identity plus the moment of authorship or committing.
#[derive(Debug, Clone)]
pub struct Signature {
    pub name: String,
    pub email: String,
    /// Seconds since the Unix epoch.
    pub timestamp: u64,
    /// An offset in the form "+HHMM" or "-HHMM".
    pub timezone: String,
}

/// The timezone given to newly minted signatures.
pub open spec fn default_timezone() -> Seq<char> {
    seq!['+', '0', '0', '0', '0']
}

/// The canonical text of a signature:
/// `<name> <<email>> <timestamp> <timezone>`.
pub open spec fn signature_text(
    name: Seq<char>,
    email: Seq<char>,
    ts: nat,
    tz: Seq<char>,
) -> Seq<char> {
    name + seq![' ', '<'] + email + seq!['>', ' '] + radix_rep(10, ts) + seq![' '] + tz
}

/// What parsing signature text yields, splitting from the right: the
/// timezone after the last space, the timestamp before it, then the email
/// inside the last angle-bracket pair, and the trimmed remainder as the name.
pub open spec fn spec_parse_signature(s: Seq<char>) -> Option<
    (Seq<char>, Seq<char>, u64, Seq<char>),
> {
    match last_index_of(s, ' ') {
        None => None,
        Some(i2) => {
            let tz = s.skip(i2 + 1);
            let before2 = s.take(i2);
            match last_index_of(before2, ' ') {
                None => None,
                Some(i1) => {
                    let ts_str = before2.skip(i1 + 1);
                    let name_email = before2.take(i1);
                    match spec_parse_radix_u64(10, ts_str) {
                        None => None,
                        Some(ts) => match (
                            last_index_of(name_email, '<'),
                            last_index_of(name_email, '>'),
                        ) {
                            (Some(ls), Some(gt)) => if ls >= gt {
                                None
                            } else {
                                Some(
                                    (
                                        spec_trim(name_email.take(ls)),
                                        name_email.subrange(ls + 1, gt),
                                        ts,
                                        tz,
                                    ),
                                )
                            },
                            _ => None,
                        },
                    }
                },
            }
        },
    }
}

/// Relies on std's SystemTime and UNIX_EPOCH: seconds since the epoch, or
/// zero if the clock reads earlier than the epoch.
#[verifier::external_body]
fn unix_time_now() -> u64 {
    std::time::SystemTime::now()
        .duration_since(std::time::UNIX_EPOCH)
        .map(|d| d.as_secs())
        .unwrap_or(0)
}

impl Signature {
    /// A signature for `name` and `email` stamped with the present moment in
    /// the default timezone.
    pub fn new(name: String, email: String) -> (r: Signature)
        ensures
            r.name@ == name@,
            r.email@ == email@,
            r.timezone@ == default_timezone(),
    {
        let mut tz = String::new();
        push_char(&mut tz, '+');
        push_char(&mut tz, '0');
        push_char(&mut tz, '0');
        push_char(&mut tz, '0');
        push_char(&mut tz, '0');
        assert(tz@ =~= default_timezone());
        Signature { name, email, timestamp: unix_time_now(), timezone: tz }
    }

    /// A field-for-field copy of the signature.
    pub fn duplicate(&self) -> (r: Signature)
        ensures
            r == *self,
    {
        Signature {
            name: self.name.clone(),
            email: self.email.clone(),
            timestamp: self.timestamp,
            timezone: self.timezone.clone(),
        }
    }

    /// The canonical text of this signature.
    pub fn format(&self) -> (r: String)
        ensures
            r@ == signature_text(self.name@, self.email@, self.timestamp as nat, self.timezone@),
    {
        let mut r = self.name.clone();
        push_char(&mut r, ' ');
        push_char(&mut r, '<');
        r.append(self.email.as_str());
        push_char(&mut r, '>');
        push_char(&mut r, ' ');
        let digits = radix_chars(self.timestamp, 10);
        let ds = string_of_chars(&digits);
        r.append(ds.as_str());
        push_char(&mut r, ' ');
        r.append(self.timezone.as_str());
        assert(r@ =~= signature_text(
            self.name@,
            self.email@,
            self.timestamp as nat,
            self.timezone@,
        ));
        r
    }

    /// Parses canonical signature text, splitting from the right so that
    /// names may contain spaces.
    pub fn parse(input: &str) -> (r: Result<Signature, VcsError>)
        ensures
            match r {
                Ok(sig) => spec_parse_signature(input@) == Some(
                    (sig.name@, sig.email@, sig.timestamp, sig.timezone@),
                ),
                Err(e) => spec_parse_signature(input@) is None && e is DecodeError,
            },
    {
        let len = input.unicode_len();
        proof {
            lemma_last_index_of_props(input@, ' ');
        }
        let i2 = match rfind_char(input, ' ') {
            Some(i) => i,
            None => {
                return Err(VcsError::DecodeError("Missing timestamp".to_owned()));
            },
        };
        assert(last_index_of(input@, ' ') == Some(i2 as int));
        let tz = substring(input, i2 + 1, len);
        let before2 = substring(input, 0, i2);
        proof {
            lemma_last_index_of_props(before2@, ' ');
        }
        let i1 = match rfind_char(before2.as_str(), ' ') {
            Some(i) => i,
            None => {
                return Err(VcsError::DecodeError("Missing name and email".to_owned()));
            },
        };
        assert(last_index_of(before2@, ' ') == Some(i1 as int));
        let ts_sub = substring(before2.as_str(), i1 + 1, i2);
        let ts_chars = chars_of_str(ts_sub.as_str());
        let timestamp = match parse_radix_chars(&ts_chars, 10) {
            Some(t) => t,
            None => {
                return Err(VcsError::DecodeError("Invalid timestamp".to_owned()));
            },
        };
        let name_email = substring(before2.as_str(), 0, i1);
        proof {
            lemma_last_index_of_props(name_email@, '<');
            lemma_last_index_of_props(name_email@, '>');
        }
        let ls = match rfind_char(name_email.as_str(), '<') {
            Some(i) => i,
            None => {
                return Err(VcsError::DecodeError("Missing email start".to_owned()));
            },
        };
        assert(last_index_of(name_email@, '<') == Some(ls as int));
        let gt = match rfind_char(name_email.as_str(), '>') {
            Some(i) => i,
            None => {
                return Err(VcsError::DecodeError("Missing email end".to_owned()));
            },
        };
        assert(last_index_of(name_email@, '>') == Some(gt as int));
        if ls >= gt {
            return Err(VcsError::DecodeError("Invalid email format".to_owned()));
        }
        let name_part = substring(name_email.as_str(), 0, ls);
        let name = trim(name_part.as_str());
        let email = substring(name_email.as_str(), ls + 1, gt);
        proof {
            assert(before2@.skip(i1 + 1) =~= input@.take(i2 as int).skip(i1 + 1));
            assert(ts_sub@ =~= input@.take(i2 as int).skip(i1 + 1));
            assert(name_email@ =~= input@.take(i2 as int).take(i1 as int));
        }
        Ok(Signature { name, email, timestamp, timezone: tz })
    }
}

} // verus!
