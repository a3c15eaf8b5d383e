//! The settings the library reads: where records live, the template new
//! records start from, and how new records are numbered.

use vstd::prelude::*;
use crate::adr::joined;
use crate::parse::{decimal_value, is_digit};
use crate::text::{chars_of, same_str, slice_of, string_of, push_all};

verus! {

pub const LOG_LEVEL: &'static str = "log_level";

pub const ADR_ROOT_DIR: &'static str = "adr_root_dir";

pub const ADR_SRC_DIR: &'static str = "adr_src_dir";

pub const ADR_TEMPLATE_DIR: &'static str = "adr_template_dir";

pub const ADR_TEMPLATE_FILE: &'static str = "adr_template_file";

pub const ADR_SEARCH_INDEX: &'static str = "adr_search_dir";

pub const USE_ID_PREFIX: &'static str = "use_id_prefix";

pub const ID_PREFIX_WIDTH: &'static str = "id_prefix_width";

/// The tool's settings.
#[derive(Debug, Clone)]
pub struct AdrToolConfig {
    pub log_level: usize,
    pub adr_src_dir: String,
    pub adr_template_dir: String,
    pub adr_template_file: String,
    pub adr_search_index: String,
    pub use_id_prefix: bool,
    pub id_prefix_width: usize,
}

impl Default for AdrToolConfig {
    fn default() -> (r: Self)
        ensures
            r.log_level == 4,
            r.adr_src_dir@ == "/tmp/adr-samples/src"@,
            r.adr_template_dir@ == "/tmp/adr-samples/templates"@,
            r.adr_template_file@ == "adr-template-v0.1.adoc"@,
            r.adr_search_index@ == "/tmp/adr-samples/.index"@,
            r.use_id_prefix,
            r.id_prefix_width == 6,
    {
        AdrToolConfig {
            adr_src_dir: String::from_str("/tmp/adr-samples/src"),
            adr_template_dir: String::from_str("/tmp/adr-samples/templates"),
            adr_template_file: String::from_str("adr-template-v0.1.adoc"),
            adr_search_index: String::from_str("/tmp/adr-samples/.index"),
            log_level: 4,
            use_id_prefix: true,
            id_prefix_width: 6,
        }
    }
}

/// Why a setting could not be changed.
#[derive(Debug, PartialEq, Eq, Structural, Clone, Copy)]
pub enum ConfigError {
    /// The value is not a number that fits in `usize`.
    InvalidNumber,
    /// The value is neither `true` nor `false`.
    InvalidBool,
}

/// The number `s` writes: an optional `+`, then one or more decimal digits,
/// with a value that fits in `usize`.
pub open spec fn number_of(s: Seq<char>) -> Option<usize> {
    digits_number(
        if s.len() > 0 && s[0] == '+' {
            s.drop_first()
        } else {
            s
        },
    )
}

/// The number one or more decimal digits write, if it fits in `usize`.
pub open spec fn digits_number(body: Seq<char>) -> Option<usize> {
    if body.len() >= 1 && (forall|k: int| 0 <= k < body.len() ==> #[trigger] is_digit(body[k]))
        && decimal_value(body) <= usize::MAX {
        Some(decimal_value(body) as usize)
    } else {
        None
    }
}

/// The truth value `s` writes: `true` or `false`.
pub open spec fn bool_of(s: Seq<char>) -> Option<bool> {
    if s == "true"@ {
        Some(true)
    } else if s == "false"@ {
        Some(false)
    } else {
        None
    }
}

impl AdrToolConfig {
    /// `b` equals `self` but in the fields that setting `name` may change.
    pub open spec fn same_but(&self, b: AdrToolConfig, name: Seq<char>) -> bool {
        let root = name == "adr_root_dir"@;
        &&& (name != "log_level"@ ==> b.log_level == self.log_level)
        &&& (name != "adr_src_dir"@ && !root ==> b.adr_src_dir@ == self.adr_src_dir@)
        &&& (name != "adr_template_dir"@ && !root ==> b.adr_template_dir@ == self.adr_template_dir@)
        &&& (name != "adr_template_file"@ ==> b.adr_template_file@ == self.adr_template_file@)
        &&& (!root ==> b.adr_search_index@ == self.adr_search_index@)
        &&& (name != "use_id_prefix"@ ==> b.use_id_prefix == self.use_id_prefix)
        &&& (name != "id_prefix_width"@ ==> b.id_prefix_width == self.id_prefix_width)
    }

    /// The settings with property `name` set to `value`. Setting the root
    /// directory sets the source directory to it and places the templates and
    /// the search index under it. A number or a truth value that does not
    /// parse is an error; an unknown name changes nothing.
    pub fn with_setting(&self, name: &str, value: &str) -> (r: Result<AdrToolConfig, ConfigError>)
        ensures
            name@ == "log_level"@ || name@ == "id_prefix_width"@ ==> (r is Err <==> number_of(
                value@,
            ) is None),
            name@ == "use_id_prefix"@ ==> (r is Err <==> bool_of(value@) is None),
            r matches Err(e) ==> (e == ConfigError::InvalidBool <==> name@ == "use_id_prefix"@),
            r matches Err(_) ==> name@ == "log_level"@ || name@ == "id_prefix_width"@ || name@
                == "use_id_prefix"@,
            r matches Ok(c) ==> self.same_but(c, name@),
            name@ == "adr_root_dir"@ ==> (r matches Ok(c) ==> c.adr_src_dir@ == value@
                && c.adr_template_dir@ == joined(value@, "templates"@) && c.adr_search_index@
                == joined(value@, ".index"@)),
            name@ == "adr_src_dir"@ ==> (r matches Ok(c) ==> c.adr_src_dir@ == value@),
            name@ == "adr_template_dir"@ ==> (r matches Ok(c) ==> c.adr_template_dir@ == value@),
            name@ == "adr_template_file"@ ==> (r matches Ok(c) ==> c.adr_template_file@ == value@),
            name@ == "log_level"@ ==> (r matches Ok(c) ==> c.log_level == number_of(value@)->0),
            name@ == "id_prefix_width"@ ==> (r matches Ok(c) ==> c.id_prefix_width == number_of(
                value@,
            )->0),
            name@ == "use_id_prefix"@ ==> (r matches Ok(c) ==> c.use_id_prefix == bool_of(
                value@,
            )->0),
    {
        proof {
            reveal_strlit("log_level");
            reveal_strlit("adr_root_dir");
            reveal_strlit("adr_src_dir");
            reveal_strlit("adr_template_dir");
            reveal_strlit("adr_template_file");
            reveal_strlit("adr_search_dir");
            reveal_strlit("use_id_prefix");
            reveal_strlit("id_prefix_width");
            reveal_strlit("templates");
            reveal_strlit(".index");
            reveal_strlit("true");
            reveal_strlit("false");
            assert("log_level"@.len() == 9);
            assert("adr_root_dir"@.len() == 12);
            assert("adr_src_dir"@.len() == 11);
            assert("adr_template_dir"@.len() == 16);
            assert("adr_template_file"@.len() == 17);
            assert("use_id_prefix"@.len() == 13);
            assert("id_prefix_width"@.len() == 15);
            assert("templates"@.len() == 9 && "templates"@[0] == 't');
            assert(".index"@.len() == 6 && ".index"@[0] == '.');
        }
        let mut c = AdrToolConfig {
            log_level: self.log_level,
            adr_src_dir: self.adr_src_dir.clone(),
            adr_template_dir: self.adr_template_dir.clone(),
            adr_template_file: self.adr_template_file.clone(),
            adr_search_index: self.adr_search_index.clone(),
            use_id_prefix: self.use_id_prefix,
            id_prefix_width: self.id_prefix_width,
        };
        if same_str(name, "adr_root_dir") {
            let v = chars_of(value);
            c.adr_src_dir = String::from_str(value);
            c.adr_template_dir = join_path(&v, "templates");
            c.adr_search_index = join_path(&v, ".index");
        } else if same_str(name, "adr_src_dir") {
            c.adr_src_dir = String::from_str(value);
        } else if same_str(name, "adr_template_dir") {
            c.adr_template_dir = String::from_str(value);
        } else if same_str(name, "adr_template_file") {
            c.adr_template_file = String::from_str(value);
        } else if same_str(name, "log_level") {
            match parse_number(value) {
                Some(n) => c.log_level = n,
                None => return Err(ConfigError::InvalidNumber),
            }
        } else if same_str(name, "use_id_prefix") {
            if same_str(value, "true") {
                c.use_id_prefix = true;
            } else if same_str(value, "false") {
                c.use_id_prefix = false;
            } else {
                return Err(ConfigError::InvalidBool);
            }
        } else if same_str(name, "id_prefix_width") {
            match parse_number(value) {
                Some(n) => c.id_prefix_width = n,
                None => return Err(ConfigError::InvalidNumber),
            }
        }
        Ok(c)
    }
}

/// `base` and the relative path `file` joined.
fn join_path(base: &Vec<char>, file: &str) -> (r: String)
    requires
        file@.len() > 0,
        file@[0] != '/',
    ensures
        r@ == joined(base@, file@),
{
    let f = chars_of(file);
    if base.len() == 0 {
        return string_of(f.as_slice());
    }
    let mut r = slice_of(base, 0, base.len());
    if base[base.len() - 1] != '/' {
        r.push('/');
    }
    push_all(&mut r, &f);
    string_of(r.as_slice())
}

/// The number `s` writes, if it writes one that fits in `usize`.
pub fn parse_number(s: &str) -> (r: Option<usize>)
    ensures
        r == number_of(s@),
{
    let c = chars_of(s);
    let start: usize = if c.len() > 0 && c[0] == '+' {
        1
    } else {
        0
    };
    let body = slice_of(&c, start, c.len());
    assert(body@ =~= (if s@.len() > 0 && s@[0] == '+' {
        s@.drop_first()
    } else {
        s@
    }));
    let ghost unsigned = body@;
    assert(number_of(s@) == digits_number(unsigned));
    if body.len() == 0 {
        return None;
    }
    let mut v: usize = 0;
    let mut j: usize = 0;
    while j < body.len()
        invariant
            j <= body.len(),
            body@ == unsigned,
            number_of(s@) == digits_number(unsigned),
            forall|k: int| 0 <= k < j ==> #[trigger] is_digit(body@[k]),
            v == decimal_value(body@.subrange(0, j as int)),
        decreases body.len() - j,
    {
        let ch = body[j];
        if !('0' <= ch && ch <= '9') {
            assert(!is_digit(body@[j as int]));
            return None;
        }
        let d: usize = (ch as u32 - '0' as u32) as usize;
        assert(body@.subrange(0, j + 1).drop_last() =~= body@.subrange(0, j as int));
        if v > (usize::MAX - d) / 10 {
            assert(v * 10 + d > usize::MAX) by (nonlinear_arith)
                requires
                    v > (usize::MAX - d) / 10,
                    d <= 9,
            ;
            let mut k: usize = j + 1;
            while k < body.len()
                invariant
                    j < k <= body.len(),
                    body@ == unsigned,
                    number_of(s@) == digits_number(unsigned),
                    forall|m: int| 0 <= m < k ==> #[trigger] is_digit(body@[m]),
                    decimal_value(body@.subrange(0, k as int)) > usize::MAX,
                decreases body.len() - k,
            {
                let ch2 = body[k];
                if !('0' <= ch2 && ch2 <= '9') {
                    assert(!is_digit(body@[k as int]));
                    return None;
                }
                assert(body@.subrange(0, k + 1).drop_last() =~= body@.subrange(0, k as int));
                k = k + 1;
            }
            assert(body@.subrange(0, body@.len() as int) =~= body@);
            return None;
        }
        assert(v * 10 + d <= usize::MAX) by (nonlinear_arith)
            requires
                v <= (usize::MAX - d) / 10,
                d <= 9,
        ;
        v = v * 10 + d;
        j = j + 1;
    }
    assert(body@.subrange(0, body@.len() as int) =~= body@);
    Some(v)
}

} // verus!
