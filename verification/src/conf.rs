//! Configuration resolution.  Flag parsing and the environment live in
//! the binary around the library; each setting's raw values come here,
//! and the precedence (flag, then environment, then default), the proxy
//! mode mapping and the allow-list splitting are decided here.
use vstd::prelude::*;

use crate::text::bytes_eq;

verus! {

/// The broker's resolved settings.
pub struct Config {
    /// 1 for sticky, 2 for non-sticky.
    pub proxy_mode: u8,
    /// Country codes slaves may come from; empty admits all.
    pub allowed_locations: Vec<Vec<u8>>,
    /// Log level name (trace, debug, info, warn, error).
    pub verbosity: String,
    /// Bind address accepting slave connections.
    pub master_addr: String,
    /// Bind address of the local SOCKS5 server.
    pub socks_addr: String,
    /// Bind address of the metrics server.
    pub metrics_addr: String,
}

/// The command-line value wins, then the environment, then the default.
pub fn resolve_setting(cli: Option<String>, env_value: Option<String>, default_value: String) -> (r:
    String)
    ensures
        (cli matches Some(v) ==> r@ == v@),
        cli is None ==> (env_value matches Some(v) ==> r@ == v@),
        cli is None && env_value is None ==> r@ == default_value@,
{
    match cli {
        Some(v) => v,
        None => match env_value {
            Some(v) => v,
            None => default_value,
        },
    }
}

/// ASCII `stick`.
pub open spec fn stick_bytes() -> Seq<u8> {
    seq![115u8, 116u8, 105u8, 99u8, 107u8]
}

/// The proxy mode named by `mode`: `stick` is 1, anything else (including
/// `nonstick`) is 2.
pub fn proxy_mode_of(mode: &[u8]) -> (r: u8)
    ensures
        r == (if mode@ == stick_bytes() {
            1u8
        } else {
            2u8
        }),
{
    let stick: [u8; 5] = [115, 116, 105, 99, 107];
    proof {
        assert(stick@ =~= stick_bytes());
    }
    if bytes_eq(mode, stick.as_slice()) {
        1
    } else {
        2
    }
}

/// ASCII whitespace trimmed around a country code.
pub open spec fn is_ws(c: u8) -> bool {
    c == 32 || c == 9 || c == 10 || c == 13
}

pub open spec fn trim_front(s: Seq<u8>) -> Seq<u8>
    decreases s.len(),
{
    if s.len() > 0 && is_ws(s[0]) {
        trim_front(s.drop_first())
    } else {
        s
    }
}

pub open spec fn trim_back(s: Seq<u8>) -> Seq<u8>
    decreases s.len(),
{
    if s.len() > 0 && is_ws(s.last()) {
        trim_back(s.drop_last())
    } else {
        s
    }
}

/// A piece with its surrounding ASCII whitespace removed.
pub open spec fn trim_spec(s: Seq<u8>) -> Seq<u8> {
    trim_back(trim_front(s))
}

/// The pieces of `s` between commas, in order; n commas give n+1 pieces.
pub open spec fn split_commas(s: Seq<u8>) -> Seq<Seq<u8>>
    decreases s.len(),
{
    if s.len() == 0 {
        seq![Seq::<u8>::empty()]
    } else if s[0] == 44 {
        seq![Seq::<u8>::empty()] + split_commas(s.drop_first())
    } else {
        let rest = split_commas(s.drop_first());
        seq![seq![s[0]] + rest[0]] + rest.skip(1)
    }
}

pub open spec fn nonempty_piece() -> spec_fn(Seq<u8>) -> bool {
    |p: Seq<u8>| p.len() > 0
}

pub open spec fn trimmed() -> spec_fn(Seq<u8>) -> Seq<u8> {
    |p: Seq<u8>| trim_spec(p)
}

/// The allow list read from a comma-separated value: every piece trimmed,
/// empty pieces dropped, order kept.
pub open spec fn spec_locations(s: Seq<u8>) -> Seq<Seq<u8>> {
    split_commas(s).map_values(trimmed()).filter(nonempty_piece())
}

/// Appending one element to a sequence filters to the old result, plus
/// the element when it passes.
proof fn lemma_filter_push<A>(s: Seq<A>, pred: spec_fn(A) -> bool, e: A)
    ensures
        s.push(e).filter(pred) == (if pred(e) {
            s.filter(pred).push(e)
        } else {
            s.filter(pred)
        }),
{
    reveal(Seq::filter);
    assert(s.push(e).drop_last() =~= s);
    assert(s.push(e).last() == e);
}

/// The views of the byte vectors in `s`.
pub open spec fn piece_views(s: Seq<Vec<u8>>) -> Seq<Seq<u8>> {
    s.map_values(|v: Vec<u8>| v@)
}

/// Removes leading and trailing ASCII whitespace.
fn trim_bytes(piece: &[u8]) -> (r: Vec<u8>)
    ensures
        r@ == trim_spec(piece@),
{
    let n = piece.len();
    let mut start: usize = 0;
    proof {
        assert(piece@.skip(0) =~= piece@);
    }
    while start < n && (piece[start] == 32 || piece[start] == 9 || piece[start] == 10
        || piece[start] == 13)
        invariant
            start <= n,
            n == piece@.len(),
            trim_front(piece@) == trim_front(piece@.skip(start as int)),
        decreases n - start,
    {
        proof {
            assert(piece@.skip(start as int)[0] == piece@[start as int]);
            assert(piece@.skip(start as int).drop_first() =~= piece@.skip(start + 1));
        }
        start = start + 1;
    }
    proof {
        if start < n {
            assert(piece@.skip(start as int)[0] == piece@[start as int]);
        }
        assert(trim_front(piece@) == piece@.skip(start as int));
    }
    let mut end: usize = n;
    proof {
        assert(piece@.skip(start as int).take(n - start) =~= piece@.skip(start as int));
    }
    while end > start && (piece[end - 1] == 32 || piece[end - 1] == 9 || piece[end - 1] == 10
        || piece[end - 1] == 13)
        invariant
            start <= end <= n,
            n == piece@.len(),
            trim_front(piece@) == piece@.skip(start as int),
            trim_back(piece@.skip(start as int)) == trim_back(
                piece@.skip(start as int).take(end - start),
            ),
        decreases end,
    {
        proof {
            let cur = piece@.skip(start as int).take(end - start);
            assert(cur.last() == piece@[end - 1]);
            assert(cur.drop_last() =~= piece@.skip(start as int).take(end - 1 - start));
        }
        end = end - 1;
    }
    proof {
        let cur = piece@.skip(start as int).take(end - start);
        if end > start {
            assert(cur.last() == piece@[end - 1]);
        }
        assert(trim_back(cur) == cur);
        assert(trim_spec(piece@) == piece@.skip(start as int).take(end - start));
    }
    let mut out: Vec<u8> = Vec::new();
    let mut i: usize = start;
    while i < end
        invariant
            start <= i <= end <= n,
            n == piece@.len(),
            out@ =~= piece@.subrange(start as int, i as int),
        decreases end - i,
    {
        out.push(piece[i]);
        i = i + 1;
    }
    proof {
        assert(out@ =~= piece@.skip(start as int).take(end - start));
    }
    out
}

/// Splits a comma-separated allow list into trimmed, non-empty country
/// codes, in order.
pub fn split_locations(raw: &[u8]) -> (r: Vec<Vec<u8>>)
    ensures
        piece_views(r@) == spec_locations(raw@),
{
    let n = raw.len();
    let mut pieces: Vec<Vec<u8>> = Vec::new();
    pieces.push(Vec::new());
    let mut i: usize = n;
    proof {
        assert(raw@.skip(n as int) =~= Seq::<u8>::empty());
        assert(piece_views(pieces@) =~= split_commas(raw@.skip(n as int)));
    }
    while i > 0
        invariant
            i <= n,
            n == raw@.len(),
            pieces@.len() >= 1,
            piece_views(pieces@) == split_commas(raw@.skip(i as int)),
        decreases i,
    {
        i = i - 1;
        proof {
            assert(raw@.skip(i as int)[0] == raw@[i as int]);
            assert(raw@.skip(i as int).drop_first() =~= raw@.skip(i + 1));
        }
        if raw[i] == 44 {
            pieces.insert(0, Vec::new());
            proof {
                assert(piece_views(pieces@) =~= seq![Seq::<u8>::empty()] + split_commas(
                    raw@.skip(i + 1),
                ));
            }
        } else {
            let ghost prev = pieces@;
            let mut head = pieces.remove(0);
            head.insert(0, raw[i]);
            pieces.insert(0, head);
            proof {
                let rest = split_commas(raw@.skip(i + 1));
                let goal = seq![seq![raw@[i as int]] + rest[0]] + rest.skip(1);
                assert(piece_views(prev) == rest);
                assert(rest[0] == prev[0]@);
                assert(pieces@.len() == prev.len());
                assert(head@ =~= seq![raw@[i as int]] + prev[0]@);
                assert(forall|t: int| 1 <= t < pieces@.len() ==> pieces@[t] == prev[t]);
                assert forall|t: int|
                    0 <= t < pieces@.len() implies #[trigger] piece_views(pieces@)[t]
                    == goal[t] by {
                    if t == 0 {
                        assert(piece_views(pieces@)[0] == head@);
                    } else {
                        assert(piece_views(pieces@)[t] == prev[t]@);
                        assert(goal[t] == rest.skip(1)[t - 1]);
                        assert(rest.skip(1)[t - 1] == rest[t]);
                    }
                }
                assert(piece_views(pieces@) =~= goal);
            }
        }
    }
    proof {
        assert(raw@.skip(0) =~= raw@);
    }
    let mut out: Vec<Vec<u8>> = Vec::new();
    let mut j: usize = 0;
    let ghost vs = piece_views(pieces@);
    while j < pieces.len()
        invariant
            j <= pieces@.len(),
            vs == piece_views(pieces@),
            vs == split_commas(raw@),
            piece_views(out@) == vs.take(j as int).map_values(trimmed()).filter(
                nonempty_piece(),
            ),
        decreases pieces@.len() - j,
    {
        let t = trim_bytes(pieces[j].as_slice());
        proof {
            assert(vs.take(j + 1).drop_last() =~= vs.take(j as int));
            assert(vs.take(j + 1).map_values(trimmed()) =~= vs.take(j as int).map_values(
                trimmed(),
            ).push(trim_spec(vs[j as int])));
            lemma_filter_push(
                vs.take(j as int).map_values(trimmed()),
                nonempty_piece(),
                trim_spec(vs[j as int]),
            );
            assert(vs[j as int] == pieces@[j as int]@);
        }
        if t.len() > 0 {
            out.push(t);
            proof {
                assert(piece_views(out@) =~= vs.take(j + 1).map_values(trimmed()).filter(
                    nonempty_piece(),
                ));
            }
        } else {
            proof {
                assert(piece_views(out@) =~= vs.take(j + 1).map_values(trimmed()).filter(
                    nonempty_piece(),
                ));
            }
        }
        j = j + 1;
    }
    proof {
        assert(vs.take(vs.len() as int) =~= vs);
    }
    out
}

/// Assembles the configuration from each setting's resolved text.
pub fn build_config(
    proxy_mode_raw: &[u8],
    allowed_locations_raw: &[u8],
    verbosity: String,
    master_addr: String,
    socks_addr: String,
    metrics_addr: String,
) -> (r: Config)
    ensures
        r.proxy_mode == (if proxy_mode_raw@ == stick_bytes() {
            1u8
        } else {
            2u8
        }),
        piece_views(r.allowed_locations@) == spec_locations(allowed_locations_raw@),
        r.verbosity@ == verbosity@,
        r.master_addr@ == master_addr@,
        r.socks_addr@ == socks_addr@,
        r.metrics_addr@ == metrics_addr@,
{
    Config {
        proxy_mode: proxy_mode_of(proxy_mode_raw),
        allowed_locations: split_locations(allowed_locations_raw),
        verbosity,
        master_addr,
        socks_addr,
        metrics_addr,
    }
}

} // verus!
