use vstd::prelude::*;
use vstd::string::StrSliceExecFns;
use vstd::string::StringExecFns;

verus! {

/// The kind of result a search query asks for.
enum SearchType {
    Image,
}

/// The decimal digit characters, smallest first.
pub open spec fn digit_char(d: nat) -> char {
    if d == 0 {
        '0'
    } else if d == 1 {
        '1'
    } else if d == 2 {
        '2'
    } else if d == 3 {
        '3'
    } else if d == 4 {
        '4'
    } else if d == 5 {
        '5'
    } else if d == 6 {
        '6'
    } else if d == 7 {
        '7'
    } else if d == 8 {
        '8'
    } else {
        '9'
    }
}

/// The decimal digits of `n`, most significant first, as characters.
pub open spec fn dec_chars(n: nat) -> Seq<char>
    decreases n,
{
    if n < 10 {
        seq![digit_char(n)]
    } else {
        dec_chars(n / 10).push(digit_char(n % 10))
    }
}

/// Writes the decimal digits of `n` after the characters already in `out`.
fn push_decimal_chars(out: &mut String, n: usize)
    ensures
        final(out)@ == old(out)@ + dec_chars(n as nat),
    decreases n,
{
    let digits = "0123456789";
    proof {
        reveal_strlit("0123456789");
    }
    if n < 10 {
        let piece = digits.substring_char(n, n + 1);
        proof {
            assert(piece@ =~= seq![digit_char(n as nat)]);
        }
        out.append(piece);
        proof {
            assert(old(out)@ + seq![digit_char(n as nat)] =~= old(out)@ + dec_chars(n as nat));
        }
    } else {
        push_decimal_chars(out, n / 10);
        let piece = digits.substring_char(n % 10, n % 10 + 1);
        proof {
            assert(piece@ =~= seq![digit_char((n % 10) as nat)]);
        }
        out.append(piece);
        proof {
            assert((old(out)@ + dec_chars((n / 10) as nat)) + seq![digit_char((n % 10) as nat)]
                =~= old(out)@ + dec_chars(n as nat));
        }
    }
}

/// The decimal text of `n`.
pub fn decimal_string(n: usize) -> (r: String)
    ensures
        r@ == dec_chars(n as nat),
{
    let mut out = String::new();
    push_decimal_chars(&mut out, n);
    proof {
        assert(Seq::<char>::empty() + dec_chars(n as nat) =~= dec_chars(n as nat));
    }
    out
}

/// The parameters of one image-search request, rendered for the caller
/// that performs the request.
pub struct Params {
    cx: String,
    key: String,
    search_type: SearchType,
    q: String,
    num: usize,
    start: usize,
}

impl Params {
    /// The configured search-engine identifier.
    pub closed spec fn cx_spec(&self) -> Seq<char> {
        self.cx@
    }

    /// The configured credential.
    pub closed spec fn key_spec(&self) -> Seq<char> {
        self.key@
    }

    /// The query text.
    pub closed spec fn q_spec(&self) -> Seq<char> {
        self.q@
    }

    /// The requested result count.
    pub closed spec fn num_spec(&self) -> nat {
        self.num as nat
    }

    /// The result offset.
    pub closed spec fn start_spec(&self) -> nat {
        self.start as nat
    }

    /// Parameters for an image search with an empty query, the full result
    /// page and no offset; the credential and engine identifier come from
    /// the caller, who owns their storage.
    pub fn new(key: String, cx: String) -> (r: Params)
        ensures
            r.key_spec() == key@,
            r.cx_spec() == cx@,
            r.q_spec() == Seq::<char>::empty(),
            r.num_spec() == 10,
            r.start_spec() == 0,
    {
        Params { cx, key, search_type: SearchType::Image, q: String::new(), num: 10, start: 0 }
    }

    /// Sets the query text.
    pub fn set_query(&mut self, q: String)
        ensures
            final(self).q_spec() == q@,
            final(self).key_spec() == old(self).key_spec(),
            final(self).cx_spec() == old(self).cx_spec(),
            final(self).num_spec() == old(self).num_spec(),
            final(self).start_spec() == old(self).start_spec(),
    {
        self.q = q;
    }

    /// Sets the result offset.
    pub fn set_start(&mut self, start: usize)
        ensures
            final(self).start_spec() == start as nat,
            final(self).key_spec() == old(self).key_spec(),
            final(self).cx_spec() == old(self).cx_spec(),
            final(self).q_spec() == old(self).q_spec(),
            final(self).num_spec() == old(self).num_spec(),
    {
        self.start = start;
    }

    /// Renders the parameters as the key/value list the request carries,
    /// in its fixed order.
    pub fn to_list(self) -> (r: Vec<(String, String)>)
        ensures
            r@.len() == 6,
            r@[0].0@ == "cx"@ && r@[0].1@ == self.cx_spec(),
            r@[1].0@ == "key"@ && r@[1].1@ == self.key_spec(),
            r@[2].0@ == "searchType"@ && r@[2].1@ == "image"@,
            r@[3].0@ == "q"@ && r@[3].1@ == self.q_spec(),
            r@[4].0@ == "num"@ && r@[4].1@ == dec_chars(self.num_spec()),
            r@[5].0@ == "start"@ && r@[5].1@ == dec_chars(self.start_spec()),
    {
        let mut out: Vec<(String, String)> = Vec::new();
        out.push(("cx".to_owned(), self.cx));
        out.push(("key".to_owned(), self.key));
        out.push(("searchType".to_owned(), "image".to_owned()));
        out.push(("q".to_owned(), self.q));
        out.push(("num".to_owned(), decimal_string(self.num)));
        out.push(("start".to_owned(), decimal_string(self.start)));
        out
    }
}

/// The search client; its request and response plumbing performs network
/// calls and lives with the host application.
pub struct Fetcher {}

/// A topic name with underscores rendered as spaces, ready to be used as a
/// query.
pub open spec fn spec_format_query(s: Seq<char>) -> Seq<char> {
    Seq::new(s.len(), |i: int| if s[i] == '_' {
        ' '
    } else {
        s[i]
    })
}

/// Renders a topic name as a query: every underscore becomes a space.
pub fn format_query(topic: &str) -> (r: String)
    ensures
        r@ == spec_format_query(topic@),
{
    let n = topic.unicode_len();
    let mut out = String::new();
    let mut i: usize = 0;
    while i < n
        invariant
            n == topic@.len(),
            0 <= i <= n,
            out@.len() == i,
            forall|j: int| 0 <= j < i ==> out@[j] == spec_format_query(topic@)[j],
        decreases n - i,
    {
        let c = topic.get_char(i);
        if c == '_' {
            let piece = " ";
            proof {
                reveal_strlit(" ");
                assert(piece@ =~= seq![' ']);
            }
            out.append(piece);
        } else {
            let piece = topic.substring_char(i, i + 1);
            proof {
                assert(piece@ =~= seq![c]);
            }
            out.append(piece);
        }
        i += 1;
    }
    proof {
        assert(out@ =~= spec_format_query(topic@));
    }
    out
}

} // verus!
