//! The settings of the service.

use vstd::prelude::*;
use vstd::string::*;

use crate::request::bytes_of;
use crate::text::{
    all_digits, decimal, leading_digits, lemma_digit_count, lemma_digit_count_bounds, read_digits,
};

verus! {

/// The port where none is set.
pub const DEFAULT_PORT: u16 = 9999;

pub const DEFAULT_NORMALIZATION_PATH: &'static str = "resources/normalization.json";

pub const DEFAULT_MCC_RISK_PATH: &'static str = "resources/mcc_risk.json";

pub const DEFAULT_DATASET_DIR: &'static str = "data/index";

/// The settings of the service.
#[derive(Debug, Clone, PartialEq, Eq)]
pub struct Config {
    pub port: u16,
    pub normalization_path: String,
    pub mcc_risk_path: String,
    pub dataset_dir: String,
}

/// The bytes of a number without its plus sign.
pub open spec fn without_plus(s: Seq<u8>) -> Seq<u8> {
    if s.len() > 0 && s[0] == 0x2b {
        s.skip(1)
    } else {
        s
    }
}

/// The port that a text names: digits, of which there is one at least, behind a plus sign
/// or none.
pub open spec fn port_named(s: Seq<u8>) -> Option<u16> {
    let digits = without_plus(s);
    if digits.len() > 0 && all_digits(digits) && decimal(digits) <= u16::MAX {
        Some(decimal(digits) as u16)
    } else {
        None
    }
}

/// The port that a text names.
pub fn parse_port(value: &str) -> (port: Option<u16>)
    ensures
        port == port_named(bytes_of(value)),
{
    let bytes = value.as_bytes();
    let start: usize = if bytes.len() > 0 && bytes[0] == 0x2b {
        1
    } else {
        0
    };
    let ghost digits = without_plus(bytes@);
    proof {
        assert(digits =~= bytes@.skip(start as int));
        lemma_digit_count_bounds(digits);
        assert(digits.take(digits.len() as int) =~= digits);
        if all_digits(digits) {
            lemma_digit_count(digits, digits.len() as int);
        }
    }
    if start == bytes.len() {
        return None;
    }
    match read_digits(bytes, start, 65535) {
        Some((number, end)) => if end == bytes.len() {
            Some(number as u16)
        } else {
            None
        },
        None => {
            proof {
                if all_digits(digits) {
                    assert(leading_digits(digits) =~= digits);
                }
            }
            None
        },
    }
}

/// The setting, or what holds where it is missing.
fn setting(value: Option<String>, default: &'static str) -> (text: String)
    ensures
        text@ == match value {
            Some(given) => given@,
            None => default@,
        },
{
    match value {
        Some(given) => given,
        None => default.to_owned(),
    }
}

impl Config {
    /// The settings from the values that are set; a port that is none counts as missing.
    pub fn from_values(
        port: Option<String>,
        normalization_path: Option<String>,
        mcc_risk_path: Option<String>,
        dataset_dir: Option<String>,
    ) -> (config: Self)
        ensures
            config.port == match port {
                Some(text) => match port_named(vstd::utf8::encode_utf8(text@)) {
                    Some(number) => number,
                    None => DEFAULT_PORT,
                },
                None => DEFAULT_PORT,
            },
            config.normalization_path@ == match normalization_path {
                Some(path) => path@,
                None => DEFAULT_NORMALIZATION_PATH@,
            },
            config.mcc_risk_path@ == match mcc_risk_path {
                Some(path) => path@,
                None => DEFAULT_MCC_RISK_PATH@,
            },
            config.dataset_dir@ == match dataset_dir {
                Some(path) => path@,
                None => DEFAULT_DATASET_DIR@,
            },
    {
        let number: u16 = match port {
            Some(text) => match parse_port(text.as_str()) {
                Some(number) => number,
                None => DEFAULT_PORT,
            },
            None => DEFAULT_PORT,
        };
        Config {
            port: number,
            normalization_path: setting(normalization_path, DEFAULT_NORMALIZATION_PATH),
            mcc_risk_path: setting(mcc_risk_path, DEFAULT_MCC_RISK_PATH),
            dataset_dir: setting(dataset_dir, DEFAULT_DATASET_DIR),
        }
    }
}

/// A text of digits, alone or behind a plus sign, names the port that they spell if there is one
/// of that number; any other text names none.
pub proof fn law_port_is_spelled_in_digits(digits: Seq<u8>, text: Seq<u8>)
    ensures
        digits.len() > 0 && (forall|k: int|
            0 <= k < digits.len() ==> 48 <= #[trigger] digits[k] <= 57) ==> {
            &&& port_named(digits) == if decimal(digits) <= 65535 {
                Some(decimal(digits) as u16)
            } else {
                None
            }
            &&& port_named(seq![0x2bu8] + digits) == port_named(digits)
        },
        text.len() == 0 ==> port_named(text) is None,
        text.len() == 1 && text[0] == 0x2b ==> port_named(text) is None,
        text.len() > 0 && text[0] != 0x2b && (text[0] < 48 || text[0] > 57) ==> port_named(text) is None,
        (exists|k: int| 0 < k < text.len() && !(48 <= #[trigger] text[k] <= 57)) ==> port_named(
            text,
        ) is None,
{
    if digits.len() > 0 && (forall|k: int|
        0 <= k < digits.len() ==> 48 <= #[trigger] digits[k] <= 57) {
        assert(all_digits(digits));
        assert(digits[0] != 0x2b);
        assert((seq![0x2bu8] + digits).skip(1) =~= digits);
        assert(without_plus(digits) == digits);
    }
    let inner = without_plus(text);
    if text.len() > 0 && text[0] != 0x2b && (text[0] < 48 || text[0] > 57) {
        assert(inner[0] == text[0]);
        assert(all_digits(inner) ==> crate::text::is_digit(inner[0]));
    }
    if exists|k: int| 0 < k < text.len() && !(48 <= #[trigger] text[k] <= 57) {
        let k = choose|k: int| 0 < k < text.len() && !(48 <= #[trigger] text[k] <= 57);
        let at = if text[0] == 0x2b {
            k - 1
        } else {
            k
        };
        assert(inner[at] == text[k]);
        assert(all_digits(inner) ==> crate::text::is_digit(inner[at]));
    }
}

/// What holds where nothing is set.
pub proof fn law_settings_have_defaults()
    ensures
        DEFAULT_PORT == 9999,
        DEFAULT_NORMALIZATION_PATH@ == "resources/normalization.json"@,
        DEFAULT_MCC_RISK_PATH@ == "resources/mcc_risk.json"@,
        DEFAULT_DATASET_DIR@ == "data/index"@,
{
}

} // verus!
