use vstd::prelude::*;
use vstd::string::*;

verus! {

/// Service settings.
pub struct Config {
    pub server_addr: String,
    pub qdrant_url: String,
    pub collection_name: String,
    pub ollama_host: String,
    pub ollama_port: u16,
    pub vector_size: u64,
    pub embedding_model: String,
    pub llm_model: String,
    pub embedding_concurrency: usize,
}

pub open spec fn is_digit(c: char) -> bool {
    '0' <= c && c <= '9'
}

/// Value of a string of decimal digits.
pub open spec fn digits_value(s: Seq<char>) -> nat
    decreases s.len(),
{
    if s.len() == 0 {
        0
    } else {
        digits_value(s.drop_last()) * 10 + ((s.last() as u32) - ('0' as u32)) as nat
    }
}

/// The digits of a decimal literal: without its optional leading `+`.
pub open spec fn unsigned_digits(s: Seq<char>) -> Seq<char> {
    if s.len() > 0 && s[0] == '+' {
        s.drop_first()
    } else {
        s
    }
}

/// What `u16::from_str` accepts: an optional `+`, then one or more decimal digits, whose
/// value fits in 16 bits.
pub open spec fn parses_as_u16(s: Seq<char>, v: u16) -> bool {
    let d = unsigned_digits(s);
    &&& d.len() > 0
    &&& forall|i: int| 0 <= i < d.len() ==> is_digit(#[trigger] d[i])
    &&& digits_value(d) == v as nat
}

pub open spec fn is_u16_literal(s: Seq<char>) -> bool {
    exists|v: u16| parses_as_u16(s, v)
}

proof fn lemma_digits_value_grows(s: Seq<char>, k: int)
    requires
        0 <= k <= s.len(),
        forall|i: int| 0 <= i < s.len() ==> is_digit(#[trigger] s[i]),
    ensures
        digits_value(s.subrange(0, k)) <= digits_value(s),
    decreases s.len(),
{
    if k < s.len() {
        assert(s.drop_last() == s.subrange(0, s.len() - 1));
        assert(s.drop_last().subrange(0, k) == s.subrange(0, k));
        lemma_digits_value_grows(s.drop_last(), k);
    } else {
        assert(s.subrange(0, k) == s);
    }
}

/// Reads a `u16` written in decimal, with an optional leading `+`.
pub fn parse_u16(s: &str) -> (r: Option<u16>)
    ensures
        match r {
            Some(v) => parses_as_u16(s@, v),
            None => !is_u16_literal(s@),
        },
{
    let n = s.unicode_len();
    let mut i: usize = 0;
    if n > 0 && s.get_char(0) == '+' {
        i = 1;
    }
    let first = i;
    let ghost d = unsigned_digits(s@);
    assert(d == s@.subrange(first as int, n as int));
    if i == n {
        return None;
    }
    let mut value: u32 = 0;
    while i < n
        invariant
            first <= i <= n,
            n == s@.len(),
            d == s@.subrange(first as int, n as int),
            d == unsigned_digits(s@),
            forall|k: int| first <= k < i ==> is_digit(#[trigger] s@[k]),
            value as nat == digits_value(s@.subrange(first as int, i as int)),
            value <= 65535,
        decreases n - i,
    {
        let c = s.get_char(i);
        if !('0' <= c && c <= '9') {
            proof {
                assert(!is_digit(d[i - first]));
                if is_u16_literal(s@) {
                    let v = choose|v: u16| parses_as_u16(s@, v);
                    assert(is_digit(d[i - first]));
                }
            }
            return None;
        }
        let ghost prefix = s@.subrange(first as int, (i + 1) as int);
        assert(prefix.drop_last() == s@.subrange(first as int, i as int));
        let next = value * 10 + ((c as u32) - ('0' as u32));
        if next > 65535 {
            proof {
                if is_u16_literal(s@) {
                    let v = choose|v: u16| parses_as_u16(s@, v);
                    assert(parses_as_u16(s@, v));
                    assert(forall|k: int| 0 <= k < d.len() ==> is_digit(#[trigger] d[k]));
                    assert(d.subrange(0, i + 1 - first) == prefix);
                    lemma_digits_value_grows(d, i + 1 - first);
                }
            }
            return None;
        }
        value = next;
        i = i + 1;
    }
    assert(s@.subrange(first as int, n as int) == d);
    Some(value as u16)
}

/// The value of a numeric setting: its text read as a `u16`, or `default` when absent or
/// unreadable.
pub open spec fn u16_setting(text: Option<String>, default: u16) -> nat {
    match text {
        Some(t) => if is_u16_literal(t@) {
            digits_value(unsigned_digits(t@))
        } else {
            default as nat
        },
        None => default as nat,
    }
}

/// A numeric setting: its text read as a `u16`, or `default` when absent or unreadable.
pub fn numeric_setting(text: Option<String>, default: u16) -> (r: u16)
    ensures
        r as nat == u16_setting(text, default),
{
    match text {
        Some(t) => match parse_u16(t.as_str()) {
            Some(v) => v,
            None => default,
        },
        None => default,
    }
}

/// A text setting, or the given default when absent.
pub fn text_setting(text: Option<String>, default: &str) -> (r: String)
    ensures
        match text {
            Some(t) => r@ == t@,
            None => r@ == default@,
        },
{
    match text {
        Some(t) => t,
        None => default.to_string(),
    }
}

impl Config {
    /// Settings from their raw texts, each absent one replaced by its default. Numbers are
    /// read as `u16`; an unreadable one also takes its default.
    pub fn from_values(
        server_addr: Option<String>,
        qdrant_url: Option<String>,
        collection_name: Option<String>,
        ollama_host: Option<String>,
        llm_model: Option<String>,
        embedding_model: Option<String>,
        ollama_port: Option<String>,
        vector_size: Option<String>,
        embedding_concurrency: Option<String>,
    ) -> (r: Config)
        ensures
            r.server_addr@ == (match server_addr {
                Some(t) => t@,
                None => "0.0.0.0:3333"@,
            }),
            r.qdrant_url@ == (match qdrant_url {
                Some(t) => t@,
                None => "http://localhost:6334"@,
            }),
            r.collection_name@ == (match collection_name {
                Some(t) => t@,
                None => "image-tags"@,
            }),
            r.ollama_host@ == (match ollama_host {
                Some(t) => t@,
                None => "http://localhost"@,
            }),
            r.llm_model@ == (match llm_model {
                Some(t) => t@,
                None => "llama3:8b"@,
            }),
            r.embedding_model@ == (match embedding_model {
                Some(t) => t@,
                None => "nomic-embed-text"@,
            }),
            r.ollama_port as nat == u16_setting(ollama_port, 11434),
            r.vector_size as nat == u16_setting(vector_size, 768),
            r.embedding_concurrency as nat == u16_setting(embedding_concurrency, 1),
    {
        let port = numeric_setting(ollama_port, 11434);
        let size = numeric_setting(vector_size, 768);
        let concurrency = numeric_setting(embedding_concurrency, 1);
        Config {
            server_addr: text_setting(server_addr, "0.0.0.0:3333"),
            qdrant_url: text_setting(qdrant_url, "http://localhost:6334"),
            collection_name: text_setting(collection_name, "image-tags"),
            ollama_host: text_setting(ollama_host, "http://localhost"),
            ollama_port: port,
            vector_size: size as u64,
            embedding_model: text_setting(embedding_model, "nomic-embed-text"),
            llm_model: text_setting(llm_model, "llama3:8b"),
            embedding_concurrency: concurrency as usize,
        }
    }
}

} // verus!
