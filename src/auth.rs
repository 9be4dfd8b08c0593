//! The credential gate: an allow-list of API keys, loaded once and then only read.
use vstd::prelude::*;

verus! {

/// What `str::lines` makes of a text: its lines, without their terminators.
pub uninterp spec fn lines_of(s: Seq<char>) -> Seq<Seq<char>>;

/// What `str::trim` makes of a text: it without leading and trailing white space.
pub uninterp spec fn trimmed(s: Seq<char>) -> Seq<char>;

/// Relies on `str::lines`: the lines of the text, split at `\n` with a trailing
/// `\r` dropped; they depend on the characters alone.
#[verifier::external_body]
fn split_lines(s: &str) -> (r: Vec<String>)
    ensures
        r@.map_values(|l: String| l@) == lines_of(s@),
{
    s.lines().map(|l| l.to_string()).collect()
}

/// Relies on `str::trim`: the text without leading and trailing white space;
/// it depends on the characters alone.
#[verifier::external_body]
fn trim(s: &str) -> (r: String)
    ensures
        r@ == trimmed(s@),
{
    s.trim().to_string()
}

/// The allow-list of API keys.
pub struct ApiKeyManager {
    api_keys: Vec<String>,
}

impl ApiKeyManager {
    /// The keys of the allow-list, in the order given.
    pub closed spec fn keys(&self) -> Seq<Seq<char>> {
        self.api_keys@.map_values(|k: String| k@)
    }

    /// A gate that accepts exactly `api_keys`.
    pub fn new(api_keys: Vec<String>) -> (r: ApiKeyManager)
        ensures
            r.keys() == api_keys@.map_values(|k: String| k@),
    {
        ApiKeyManager { api_keys }
    }

    /// A gate whose keys are the lines of `lines`, each with surrounding white
    /// space removed.
    pub fn from_lines(lines: Vec<String>) -> (r: ApiKeyManager)
        ensures
            r.keys() == lines@.map_values(|l: String| trimmed(l@)),
    {
        let mut keys: Vec<String> = Vec::new();
        let mut i: usize = 0;
        while i < lines.len()
            invariant
                0 <= i <= lines@.len(),
                keys@.len() == i,
                forall|j: int| 0 <= j < i ==> #[trigger] keys@[j]@ == trimmed(lines@[j]@),
            decreases lines@.len() - i,
        {
            keys.push(trim(lines[i].as_str()));
            i = i + 1;
        }
        let r = ApiKeyManager { api_keys: keys };
        assert(r.keys() =~= lines@.map_values(|l: String| trimmed(l@)));
        r
    }

    /// A gate read from the text of a key file: one key per line, surrounding
    /// white space removed.
    pub fn from_key_file(content: &str) -> (r: ApiKeyManager)
        ensures
            r.keys() == lines_of(content@).map_values(|l: Seq<char>| trimmed(l)),
    {
        let lines = split_lines(content);
        let r = Self::from_lines(lines);
        assert(r.keys() =~= lines_of(content@).map_values(|l: Seq<char>| trimmed(l)));
        r
    }

    /// A key is valid when it is not empty and equals one of the allow-list's keys.
    pub fn is_valid_api_key(&self, api_key: &str) -> (r: bool)
        ensures
            r == (api_key@.len() > 0 && self.keys().contains(api_key@)),
    {
        if api_key.unicode_len() == 0 {
            return false;
        }
        let presented = String::from_str(api_key);
        let mut i: usize = 0;
        while i < self.api_keys.len()
            invariant
                0 <= i <= self.api_keys@.len(),
                presented@ == api_key@,
                api_key@.len() > 0,
                forall|j: int| 0 <= j < i ==> self.api_keys@[j]@ != api_key@,
            decreases self.api_keys@.len() - i,
        {
            if self.api_keys[i] == presented {
                assert(self.keys()[i as int] == api_key@);
                assert(self.keys().contains(api_key@));
                return true;
            }
            i = i + 1;
        }
        assert(!self.keys().contains(api_key@)) by {
            if self.keys().contains(api_key@) {
                let j = choose|j: int| 0 <= j < self.keys().len() && self.keys()[j] == api_key@;
                assert(self.api_keys@[j]@ == api_key@);
            }
        }
        false
    }
}

/// A presented API key that is on the allow-list.
#[derive(Debug)]
pub struct ApiKey(pub String);

impl ApiKey {
    /// The accepted key, if `presented` holds one that `gate` accepts.
    pub fn from_header(gate: &ApiKeyManager, presented: Option<&str>) -> (r: Option<ApiKey>)
        ensures
            r is Some <==> (presented matches Some(k) && k@.len() > 0 && gate.keys().contains(k@)),
            r matches Some(key) ==> presented matches Some(k) && key.0@ == k@,
    {
        match presented {
            Some(k) => {
                if gate.is_valid_api_key(k) {
                    Some(ApiKey(String::from_str(k)))
                } else {
                    None
                }
            },
            None => None,
        }
    }
}

/// The cross-origin policy: any origin, the five methods, and the two request
/// headers that clients send.
pub struct CORS;

impl CORS {
    /// The response headers that carry the policy, as name and value.
    pub fn headers(&self) -> (r: Vec<(String, String)>)
        ensures
            r@.len() == 3,
            r@[0].0@ == "Access-Control-Allow-Origin"@,
            r@[0].1@ == "*"@,
            r@[1].0@ == "Access-Control-Allow-Methods"@,
            r@[1].1@ == "GET, POST, PUT, DELETE, OPTIONS"@,
            r@[2].0@ == "Access-Control-Allow-Headers"@,
            r@[2].1@ == "Content-Type, x-api-key"@,
    {
        let mut r: Vec<(String, String)> = Vec::new();
        r.push(
            (String::from_str("Access-Control-Allow-Origin"), String::from_str("*")),
        );
        r.push(
            (
                String::from_str("Access-Control-Allow-Methods"),
                String::from_str("GET, POST, PUT, DELETE, OPTIONS"),
            ),
        );
        r.push(
            (
                String::from_str("Access-Control-Allow-Headers"),
                String::from_str("Content-Type, x-api-key"),
            ),
        );
        r
    }
}

} // verus!
