use vstd::prelude::*;
use vstd::string::StringExecFns;
use crate::block::Block;
use crate::block::BlockV;
use crate::transaction::Transaction;
use crate::strutil::dec_digits;
use crate::strutil::is_dec_digit;
use crate::strutil::digit_val;
use crate::strutil::digits_val;
use crate::strutil::u64_to_string;

verus! {

/// One wire message of the peer protocol.
pub enum Message {
    /// Requests the peer's full chain.
    SyncRequest { from: String },
    /// Carries a full ordered block sequence.
    SyncResponse { chain: Vec<Block> },
    /// Announces one mined block.
    NewBlock { block: Block },
    /// Announces one transaction.
    NewTransaction { transaction: Transaction },
}

/// A quoted JSON string. The canonical form never escapes, so the content
/// must be free of quotes and backslashes (see `json_str_wf`).
pub open spec fn json_string(s: Seq<char>) -> Seq<char> {
    "\""@ + s + "\""@
}

/// Contents that can stand in a canonical JSON string: no quote, no backslash.
pub open spec fn json_str_wf(s: Seq<char>) -> bool {
    forall|i: int| 0 <= i < s.len() ==> s[i] != '"' && s[i] != '\\'
}

/// The canonical JSON rendering of a transaction.
pub open spec fn json_of_tx(t: Transaction) -> Seq<char> {
    "{\"from\":"@ + json_string(t.from@) + ",\"to\":"@ + json_string(t.to@) + ",\"amount\":"@
        + dec_digits(t.amount as nat) + ",\"timestamp\":"@ + dec_digits(t.timestamp as nat)
        + ",\"signature\":"@ + json_string(t.signature@) + ",\"public_key\":"@ + json_string(
        t.public_key@,
    ) + "}"@
}

/// The strings of `t` can stand in canonical JSON unescaped.
pub open spec fn tx_json_wf(t: Transaction) -> bool {
    &&& json_str_wf(t.from@)
    &&& json_str_wf(t.to@)
    &&& json_str_wf(t.signature@)
    &&& json_str_wf(t.public_key@)
}

/// Transaction renderings joined with ",".
pub open spec fn json_of_txs(txs: Seq<Transaction>) -> Seq<char>
    decreases txs.len(),
{
    if txs.len() == 0 {
        Seq::empty()
    } else if txs.len() == 1 {
        json_of_tx(txs[0])
    } else {
        json_of_txs(txs.drop_last()) + ","@ + json_of_tx(txs.last())
    }
}

/// The canonical JSON rendering of a block.
pub open spec fn json_of_block(b: BlockV) -> Seq<char> {
    "{\"index\":"@ + dec_digits(b.index as nat) + ",\"timestamp\":"@ + dec_digits(
        b.timestamp as nat,
    ) + ",\"transactions\":["@ + json_of_txs(b.transactions) + "],\"prev_hash\":"@ + json_string(
        b.prev_hash,
    ) + ",\"hash\":"@ + json_string(b.hash) + ",\"nonce\":"@ + dec_digits(b.nonce as nat) + "}"@
}

/// The strings of `b` can stand in canonical JSON unescaped.
pub open spec fn block_json_wf(b: BlockV) -> bool {
    &&& json_str_wf(b.prev_hash)
    &&& json_str_wf(b.hash)
    &&& (forall|i: int| 0 <= i < b.transactions.len() ==> tx_json_wf(#[trigger] b.transactions[i]))
}

/// Block renderings joined with ",".
pub open spec fn json_of_blocks(blocks: Seq<BlockV>) -> Seq<char>
    decreases blocks.len(),
{
    if blocks.len() == 0 {
        Seq::empty()
    } else if blocks.len() == 1 {
        json_of_block(blocks[0])
    } else {
        json_of_blocks(blocks.drop_last()) + ","@ + json_of_block(blocks.last())
    }
}

/// The canonical JSON rendering of a wire message.
pub open spec fn json_of_message(m: Message) -> Seq<char> {
    match m {
        Message::SyncRequest { from } => "{\"type\":\"SYNC_REQUEST\",\"from\":"@ + json_string(
            from@,
        ) + "}"@,
        Message::SyncResponse { chain } => "{\"type\":\"SYNC_RESPONSE\",\"chain\":["@
            + json_of_blocks(chain.deep_view()) + "]}"@,
        Message::NewBlock { block } => "{\"type\":\"NEW_BLOCK\",\"block\":"@ + json_of_block(block@)
            + "}"@,
        Message::NewTransaction { transaction } => "{\"type\":\"NEW_TRANSACTION\",\"transaction\":"@
            + json_of_tx(transaction) + "}"@,
    }
}

/// The strings of `m` can stand in canonical JSON unescaped.
pub open spec fn message_json_wf(m: Message) -> bool {
    match m {
        Message::SyncRequest { from } => json_str_wf(from@),
        Message::SyncResponse { chain } => forall|i: int|
            0 <= i < chain.deep_view().len() ==> block_json_wf(#[trigger] chain.deep_view()[i]),
        Message::NewBlock { block } => block_json_wf(block@),
        Message::NewTransaction { transaction } => tx_json_wf(transaction),
    }
}

/// Appends the quoted form of `s`.
fn append_json_string(out: &mut String, s: &str)
    ensures
        final(out)@ == old(out)@ + json_string(s@),
{
    out.append("\"");
    out.append(s);
    out.append("\"");
    proof {
        assert(out@ =~= old(out)@ + json_string(s@));
    }
}

/// Appends the canonical JSON rendering of `t`.
fn append_tx_json(out: &mut String, t: &Transaction)
    ensures
        final(out)@ == old(out)@ + json_of_tx(*t),
{
    out.append("{\"from\":");
    append_json_string(out, t.from.as_str());
    out.append(",\"to\":");
    append_json_string(out, t.to.as_str());
    out.append(",\"amount\":");
    let amt = u64_to_string(t.amount);
    out.append(amt.as_str());
    out.append(",\"timestamp\":");
    let ts = u64_to_string(t.timestamp);
    out.append(ts.as_str());
    out.append(",\"signature\":");
    append_json_string(out, t.signature.as_str());
    out.append(",\"public_key\":");
    append_json_string(out, t.public_key.as_str());
    out.append("}");
    proof {
        assert(out@ =~= old(out)@ + json_of_tx(*t));
    }
}

proof fn lemma_json_of_txs_step(txs: Seq<Transaction>, i: int)
    requires
        0 <= i < txs.len(),
    ensures
        json_of_txs(txs.take(i + 1)) == if i == 0 {
            json_of_tx(txs[0])
        } else {
            json_of_txs(txs.take(i)) + ","@ + json_of_tx(txs[i])
        },
{
    let t = txs.take(i + 1);
    if i == 0 {
        assert(t.len() == 1);
        assert(t[0] == txs[0]);
    } else {
        assert(t.drop_last() =~= txs.take(i));
        assert(t.last() == txs[i]);
    }
}

/// Appends the canonical JSON list of the transactions.
fn append_txs_json(out: &mut String, txs: &Vec<Transaction>)
    ensures
        final(out)@ == old(out)@ + json_of_txs(txs@),
{
    let mut i: usize = 0;
    proof {
        assert(out@ =~= old(out)@ + json_of_txs(txs@.take(0)));
    }
    while i < txs.len()
        invariant
            i <= txs@.len(),
            out@ == old(out)@ + json_of_txs(txs@.take(i as int)),
        decreases txs@.len() - i,
    {
        if i > 0 {
            out.append(",");
        }
        append_tx_json(out, &txs[i]);
        proof {
            lemma_json_of_txs_step(txs@, i as int);
            assert(out@ =~= old(out)@ + json_of_txs(txs@.take(i as int + 1)));
        }
        i = i + 1;
    }
    proof {
        assert(txs@.take(txs@.len() as int) =~= txs@);
    }
}

/// Appends the canonical JSON rendering of `b`.
fn append_block_json(out: &mut String, b: &Block)
    ensures
        final(out)@ == old(out)@ + json_of_block(b@),
{
    out.append("{\"index\":");
    let idx = u64_to_string(b.index as u64);
    out.append(idx.as_str());
    out.append(",\"timestamp\":");
    let ts = u64_to_string(b.timestamp);
    out.append(ts.as_str());
    out.append(",\"transactions\":[");
    append_txs_json(out, &b.transactions);
    out.append("],\"prev_hash\":");
    append_json_string(out, b.prev_hash.as_str());
    out.append(",\"hash\":");
    append_json_string(out, b.hash.as_str());
    out.append(",\"nonce\":");
    let nn = u64_to_string(b.nonce as u64);
    out.append(nn.as_str());
    out.append("}");
    proof {
        assert(out@ =~= old(out)@ + json_of_block(b@));
    }
}

proof fn lemma_json_of_blocks_step(blocks: Seq<BlockV>, i: int)
    requires
        0 <= i < blocks.len(),
    ensures
        json_of_blocks(blocks.take(i + 1)) == if i == 0 {
            json_of_block(blocks[0])
        } else {
            json_of_blocks(blocks.take(i)) + ","@ + json_of_block(blocks[i])
        },
{
    let t = blocks.take(i + 1);
    if i == 0 {
        assert(t.len() == 1);
        assert(t[0] == blocks[0]);
    } else {
        assert(t.drop_last() =~= blocks.take(i));
        assert(t.last() == blocks[i]);
    }
}

/// Appends the canonical JSON list of the blocks.
fn append_blocks_json(out: &mut String, blocks: &Vec<Block>)
    ensures
        final(out)@ == old(out)@ + json_of_blocks(blocks.deep_view()),
{
    let ghost bs = blocks.deep_view();
    let mut i: usize = 0;
    proof {
        assert(out@ =~= old(out)@ + json_of_blocks(bs.take(0)));
    }
    while i < blocks.len()
        invariant
            i <= blocks@.len(),
            bs == blocks.deep_view(),
            bs.len() == blocks@.len(),
            out@ == old(out)@ + json_of_blocks(bs.take(i as int)),
        decreases blocks@.len() - i,
    {
        if i > 0 {
            out.append(",");
        }
        proof {
            assert(bs[i as int] == blocks@[i as int]@);
        }
        append_block_json(out, &blocks[i]);
        proof {
            lemma_json_of_blocks_step(bs, i as int);
            assert(out@ =~= old(out)@ + json_of_blocks(bs.take(i as int + 1)));
        }
        i = i + 1;
    }
    proof {
        assert(bs.take(bs.len() as int) =~= bs);
    }
}

/// Renders a wire message in its canonical JSON form, exactly
/// `json_of_message`.
pub fn serialize_message(m: &Message) -> (r: String)
    ensures
        r@ == json_of_message(*m),
{
    match m {
        Message::SyncRequest { from } => {
            let mut out = String::from_str("{\"type\":\"SYNC_REQUEST\",\"from\":");
            append_json_string(&mut out, from.as_str());
            out.append("}");
            proof {
                assert(out@ =~= json_of_message(*m));
            }
            out
        },
        Message::SyncResponse { chain } => {
            let mut out = String::from_str("{\"type\":\"SYNC_RESPONSE\",\"chain\":[");
            append_blocks_json(&mut out, chain);
            out.append("]}");
            proof {
                assert(out@ =~= json_of_message(*m));
            }
            out
        },
        Message::NewBlock { block } => {
            let mut out = String::from_str("{\"type\":\"NEW_BLOCK\",\"block\":");
            append_block_json(&mut out, block);
            out.append("}");
            proof {
                assert(out@ =~= json_of_message(*m));
            }
            out
        },
        Message::NewTransaction { transaction } => {
            let mut out = String::from_str("{\"type\":\"NEW_TRANSACTION\",\"transaction\":");
            append_tx_json(&mut out, transaction);
            out.append("}");
            proof {
                assert(out@ =~= json_of_message(*m));
            }
            out
        },
    }
}

/// Advances past `lit` exactly when the characters at `pos` spell it out.
fn skip_expect(s: &str, pos: usize, lit: &str) -> (r: Option<usize>)
    requires
        pos <= s@.len(),
    ensures
        (r is Some) == (pos + lit@.len() <= s@.len() && s@.subrange(
            pos as int,
            pos + lit@.len(),
        ) == lit@),
        r matches Some(j) ==> j == pos + lit@.len(),
{
    let llen = lit.unicode_len();
    let slen = s.unicode_len();
    if llen > slen - pos {
        return None;
    }
    let mut k: usize = 0;
    while k < llen
        invariant
            k <= llen,
            pos + llen <= slen,
            slen == s@.len(),
            llen == lit@.len(),
            forall|j: int| 0 <= j < k ==> s@[pos + j] == lit@[j],
        decreases llen - k,
    {
        if s.get_char(pos + k) != lit.get_char(k) {
            proof {
                if s@.subrange(pos as int, pos + lit@.len()) == lit@ {
                    assert(s@.subrange(pos as int, pos + lit@.len())[k as int] == lit@[k as int]);
                    assert(false);
                }
            }
            return None;
        }
        k = k + 1;
    }
    proof {
        assert(s@.subrange(pos as int, pos + lit@.len()) =~= lit@);
    }
    Some(pos + llen)
}

/// Reads one quoted string starting at `pos`: rejects any escape, stops at
/// the first closing quote. Succeeds whenever an unescaped closing quote
/// exists.
fn scan_string(s: &str, pos: usize) -> (r: Option<(String, usize)>)
    requires
        pos <= s@.len(),
    ensures
        r matches Some(p) ==> {
            &&& pos + 1 < p.1 <= s@.len()
            &&& s@[pos as int] == '"'
            &&& s@[p.1 - 1] == '"'
            &&& p.0@ == s@.subrange(pos as int + 1, p.1 - 1)
            &&& json_str_wf(p.0@)
            &&& s@.subrange(pos as int, p.1 as int) == json_string(p.0@)
            &&& forall|k: int| pos < k < p.1 - 1 ==> s@[k] != '"'
        },
        (exists|j: int|
            pos < j < s@.len() && s@[pos as int] == '"' && s@[j] == '"' && (forall|k: int|
                pos < k < j ==> s@[k] != '"' && s@[k] != '\\')) ==> r is Some,
{
    let slen = s.unicode_len();
    if pos >= slen {
        return None;
    }
    if s.get_char(pos) != '"' {
        return None;
    }
    let mut j: usize = pos + 1;
    while j < slen
        invariant
            pos + 1 <= j <= slen,
            slen == s@.len(),
            s@[pos as int] == '"',
            forall|k: int| pos < k < j ==> s@[k] != '"' && s@[k] != '\\',
        decreases slen - j,
    {
        let c = s.get_char(j);
        if c == '\\' {
            proof {
                if exists|j2: int|
                    pos < j2 < s@.len() && s@[pos as int] == '"' && s@[j2] == '"' && (forall|k: int|
                        pos < k < j2 ==> s@[k] != '"' && s@[k] != '\\') {
                    let j2 = choose|j2: int|
                        pos < j2 < s@.len() && s@[pos as int] == '"' && s@[j2] == '"' && (forall|
                            k: int,
                        |
                            pos < k < j2 ==> s@[k] != '"' && s@[k] != '\\');
                    assert(j2 != j);
                    if j < j2 {
                        assert(s@[j as int] != '\\');
                    } else {
                        assert(s@[j2] != '"');
                    }
                    assert(false);
                }
            }
            return None;
        }
        if c == '"' {
            let content = s.substring_char(pos + 1, j);
            proof {
                assert forall|i: int| 0 <= i < content@.len() implies content@[i] != '"'
                    && content@[i] != '\\' by {
                    assert(content@[i] == s@[pos + 1 + i]);
                }
                reveal_strlit("\"");
                assert(s@.subrange(pos as int, j + 1) =~= json_string(content@));
            }
            return Some((String::from_str(content), j + 1));
        }
        j = j + 1;
    }
    proof {
        if exists|j2: int|
            pos < j2 < s@.len() && s@[pos as int] == '"' && s@[j2] == '"' && (forall|k: int|
                pos < k < j2 ==> s@[k] != '"' && s@[k] != '\\') {
            let j2 = choose|j2: int|
                pos < j2 < s@.len() && s@[pos as int] == '"' && s@[j2] == '"' && (forall|k: int|
                    pos < k < j2 ==> s@[k] != '"' && s@[k] != '\\');
            assert(s@[j2] != '"');
            assert(false);
        }
    }
    None
}

/// Where the run of decimal digits starting at `pos` ends.
pub open spec fn digit_run_end(s: Seq<char>, pos: int) -> int
    decreases s.len() - pos,
{
    if pos < 0 || pos >= s.len() {
        pos
    } else if is_dec_digit(s[pos]) {
        digit_run_end(s, pos + 1)
    } else {
        pos
    }
}

proof fn lemma_digit_run_end_props(s: Seq<char>, pos: int)
    requires
        0 <= pos <= s.len(),
    ensures
        pos <= digit_run_end(s, pos) <= s.len(),
        forall|k: int| pos <= k < digit_run_end(s, pos) ==> is_dec_digit(#[trigger] s[k]),
        digit_run_end(s, pos) == s.len() || !is_dec_digit(s[digit_run_end(s, pos)]),
    decreases s.len() - pos,
{
    if pos < s.len() && is_dec_digit(s[pos]) {
        lemma_digit_run_end_props(s, pos + 1);
    }
}

proof fn lemma_digit_run_end_of(s: Seq<char>, pos: int, e: int)
    requires
        0 <= pos <= e <= s.len(),
        forall|k: int| pos <= k < e ==> is_dec_digit(#[trigger] s[k]),
        e == s.len() || !is_dec_digit(s[e]),
    ensures
        digit_run_end(s, pos) == e,
    decreases e - pos,
{
    if pos < e {
        lemma_digit_run_end_of(s, pos + 1, e);
    }
}

proof fn lemma_digits_val_prefix_grows(s: Seq<char>, pos: int, a: int, b: int)
    requires
        0 <= pos <= a <= b <= s.len(),
    ensures
        digits_val(s.subrange(pos, a)) <= digits_val(s.subrange(pos, b)),
    decreases b - a,
{
    if a < b {
        assert(s.subrange(pos, a + 1).drop_last() =~= s.subrange(pos, a));
        lemma_digits_val_prefix_grows(s, pos, a + 1, b);
    }
}

/// Reads the run of decimal digits starting at `pos` into a `u64`: succeeds
/// exactly when the run is non-empty, canonical (no leading zero), and its
/// value fits; it then consumes exactly the rendering of the value returned.
fn scan_u64(s: &str, pos: usize) -> (r: Option<(u64, usize)>)
    requires
        pos <= s@.len(),
    ensures
        (r is Some) == (pos < digit_run_end(s@, pos as int) && digits_val(
            s@.subrange(pos as int, digit_run_end(s@, pos as int)),
        ) <= u64::MAX && (s@[pos as int] != '0' || digit_run_end(s@, pos as int) == pos + 1)),
        r matches Some(p) ==> {
            &&& p.1 == digit_run_end(s@, pos as int)
            &&& p.0 == digits_val(s@.subrange(pos as int, p.1 as int))
            &&& s@.subrange(pos as int, p.1 as int) == dec_digits(p.0 as nat)
            &&& pos < p.1 <= s@.len()
        },
{
    let ghost e = digit_run_end(s@, pos as int);
    proof {
        lemma_digit_run_end_props(s@, pos as int);
    }
    let slen = s.unicode_len();
    let mut j: usize = pos;
    let mut val: u128 = 0;
    let mut done = false;
    while !done && j < slen
        invariant
            pos <= j <= slen,
            slen == s@.len(),
            e == digit_run_end(s@, pos as int),
            pos <= e <= slen,
            forall|k: int| pos <= k < e ==> is_dec_digit(#[trigger] s@[k]),
            e == s@.len() || !is_dec_digit(s@[e as int]),
            j <= e,
            done ==> j == e,
            val == digits_val(s@.subrange(pos as int, j as int)),
            val <= u64::MAX as u128,
        decreases slen - j + (if done { 0int } else { 1int }),
    {
        let c = s.get_char(j);
        let d: u128;
        if c == '0' {
            d = 0;
        } else if c == '1' {
            d = 1;
        } else if c == '2' {
            d = 2;
        } else if c == '3' {
            d = 3;
        } else if c == '4' {
            d = 4;
        } else if c == '5' {
            d = 5;
        } else if c == '6' {
            d = 6;
        } else if c == '7' {
            d = 7;
        } else if c == '8' {
            d = 8;
        } else if c == '9' {
            d = 9;
        } else {
            proof {
                assert(!is_dec_digit(s@[j as int]));
                assert(j == e);
            }
            done = true;
            d = 0;
        }
        if !done {
            proof {
                assert(is_dec_digit(s@[j as int]));
                assert(j < e);
                assert(s@.subrange(pos as int, j as int + 1).drop_last() =~= s@.subrange(
                    pos as int,
                    j as int,
                ));
                assert(s@.subrange(pos as int, j as int + 1).last() == s@[j as int]);
                assert(d == digit_val(s@[j as int]));
            }
            val = val * 10 + d;
            if val > u64::MAX as u128 {
                proof {
                    lemma_digits_val_prefix_grows(s@, pos as int, j as int + 1, e);
                }
                return None;
            }
            j = j + 1;
        }
    }
    proof {
        assert(j == e);
    }
    if j == pos {
        return None;
    }
    if j > pos + 1 && s.get_char(pos) == '0' {
        return None;
    }
    proof {
        assert(val <= u64::MAX as u128);
        let sub = s@.subrange(pos as int, j as int);
        assert forall|i: int| 0 <= i < sub.len() implies is_dec_digit(#[trigger] sub[i]) by {
            assert(sub[i] == s@[pos + i]);
        }
        assert(sub[0] == s@[pos as int]);
        crate::strutil::lemma_canonical_digits(sub);
    }
    Some((val as u64, j))
}

/// `t` stands encoded in canonical form at `pos`, with its strings fit for
/// unescaped rendering.
pub open spec fn tx_encoded_at(s: Seq<char>, pos: int, t: Transaction) -> bool {
    &&& tx_json_wf(t)
    &&& 0 <= pos
    &&& pos + json_of_tx(t).len() <= s.len()
    &&& s.subrange(pos, pos + json_of_tx(t).len()) == json_of_tx(t)
}

proof fn lemma_sub_chunk(s: Seq<char>, pos: int, whole: Seq<char>, off: int, part: Seq<char>)
    requires
        0 <= pos,
        pos + whole.len() <= s.len(),
        s.subrange(pos, pos + whole.len()) == whole,
        0 <= off,
        off + part.len() <= whole.len(),
        whole.subrange(off, off + part.len()) == part,
    ensures
        s.subrange(pos + off, pos + off + part.len()) == part,
{
    assert forall|i: int| 0 <= i < part.len() implies s.subrange(
        pos + off,
        pos + off + part.len(),
    )[i] == part[i] by {
        assert(s.subrange(pos, pos + whole.len())[off + i] == whole[off + i]);
        assert(whole.subrange(off, off + part.len())[i] == part[i]);
    }
    assert(s.subrange(pos + off, pos + off + part.len()) =~= part);
}

/// Where each field of a canonically encoded transaction stands in `s`.
#[verifier::rlimit(100)]
proof fn lemma_tx_layout(s: Seq<char>, pos: int, t: Transaction)
    requires
        tx_encoded_at(s, pos, t),
    ensures
        ({
            let p1 = pos + 8;
            let p2 = p1 + t.from@.len() + 2;
            let p3 = p2 + 6;
            let p4 = p3 + t.to@.len() + 2;
            let p5 = p4 + 10;
            let p6 = p5 + dec_digits(t.amount as nat).len();
            let p7 = p6 + 13;
            let p8 = p7 + dec_digits(t.timestamp as nat).len();
            let p9 = p8 + 13;
            let p10 = p9 + t.signature@.len() + 2;
            let p11 = p10 + 14;
            let p12 = p11 + t.public_key@.len() + 2;
            let p13 = p12 + 1;
            &&& p13 == pos + json_of_tx(t).len()
            &&& p13 <= s.len()
            &&& s.subrange(pos, p1) == "{\"from\":"@
            &&& s.subrange(p1, p2) == json_string(t.from@)
            &&& s.subrange(p2, p3) == ",\"to\":"@
            &&& s.subrange(p3, p4) == json_string(t.to@)
            &&& s.subrange(p4, p5) == ",\"amount\":"@
            &&& s.subrange(p5, p6) == dec_digits(t.amount as nat)
            &&& s.subrange(p6, p7) == ",\"timestamp\":"@
            &&& s.subrange(p7, p8) == dec_digits(t.timestamp as nat)
            &&& s.subrange(p8, p9) == ",\"signature\":"@
            &&& s.subrange(p9, p10) == json_string(t.signature@)
            &&& s.subrange(p10, p11) == ",\"public_key\":"@
            &&& s.subrange(p11, p12) == json_string(t.public_key@)
            &&& s.subrange(p12, p13) == "}"@
        }),
{
    reveal_strlit("{\"from\":");
    reveal_strlit(",\"to\":");
    reveal_strlit(",\"amount\":");
    reveal_strlit(",\"timestamp\":");
    reveal_strlit(",\"signature\":");
    reveal_strlit(",\"public_key\":");
    reveal_strlit("}");
    reveal_strlit("\"");
    let j = json_of_tx(t);
    let a1 = "{\"from\":"@;
    let s1 = json_string(t.from@);
    let a2 = ",\"to\":"@;
    let s2 = json_string(t.to@);
    let a3 = ",\"amount\":"@;
    let d1 = dec_digits(t.amount as nat);
    let a4 = ",\"timestamp\":"@;
    let d2 = dec_digits(t.timestamp as nat);
    let a5 = ",\"signature\":"@;
    let s3 = json_string(t.signature@);
    let a6 = ",\"public_key\":"@;
    let s4 = json_string(t.public_key@);
    let a7 = "}"@;
    let o1 = a1.len() as int;
    let o2 = o1 + s1.len();
    let o3 = o2 + a2.len();
    let o4 = o3 + s2.len();
    let o5 = o4 + a3.len();
    let o6 = o5 + d1.len();
    let o7 = o6 + a4.len();
    let o8 = o7 + d2.len();
    let o9 = o8 + a5.len();
    let o10 = o9 + s3.len();
    let o11 = o10 + a6.len();
    let o12 = o11 + s4.len();
    let o13 = o12 + a7.len();
    assert(j.len() == o13);
    assert(j.subrange(0, o1) =~= a1);
    assert(j.subrange(o1, o2) =~= s1);
    assert(j.subrange(o2, o3) =~= a2);
    assert(j.subrange(o3, o4) =~= s2);
    assert(j.subrange(o4, o5) =~= a3);
    assert(j.subrange(o5, o6) =~= d1);
    assert(j.subrange(o6, o7) =~= a4);
    assert(j.subrange(o7, o8) =~= d2);
    assert(j.subrange(o8, o9) =~= a5);
    assert(j.subrange(o9, o10) =~= s3);
    assert(j.subrange(o10, o11) =~= a6);
    assert(j.subrange(o11, o12) =~= s4);
    assert(j.subrange(o12, o13) =~= a7);
    lemma_sub_chunk(s, pos, j, 0, a1);
    lemma_sub_chunk(s, pos, j, o1, s1);
    lemma_sub_chunk(s, pos, j, o2, a2);
    lemma_sub_chunk(s, pos, j, o3, s2);
    lemma_sub_chunk(s, pos, j, o4, a3);
    lemma_sub_chunk(s, pos, j, o5, d1);
    lemma_sub_chunk(s, pos, j, o6, a4);
    lemma_sub_chunk(s, pos, j, o7, d2);
    lemma_sub_chunk(s, pos, j, o8, a5);
    lemma_sub_chunk(s, pos, j, o9, s3);
    lemma_sub_chunk(s, pos, j, o10, a6);
    lemma_sub_chunk(s, pos, j, o11, s4);
    lemma_sub_chunk(s, pos, j, o12, a7);
}

/// A canonically rendered string field is ready for `scan_string`: the quotes
/// stand where the layout says, nothing in between ends the scan early.
proof fn lemma_string_scan_ready(s: Seq<char>, p: int, f: Seq<char>)
    requires
        json_str_wf(f),
        0 <= p,
        p + f.len() + 2 <= s.len(),
        s.subrange(p, p + f.len() + 2) == json_string(f),
    ensures
        s[p] == '"',
        s[p + 1 + f.len()] == '"',
        forall|k: int| p < k < p + 1 + f.len() ==> s[k] != '"' && s[k] != '\\',
        exists|j2: int|
            p < j2 < s.len() && s[p] == '"' && s[j2] == '"' && (forall|k: int|
                p < k < j2 ==> s[k] != '"' && s[k] != '\\'),
{
    reveal_strlit("\"");
    let js = json_string(f);
    assert(s[p] == s.subrange(p, p + f.len() + 2)[0]);
    assert(s[p + 1 + f.len()] == s.subrange(p, p + f.len() + 2)[1 + f.len() as int]);
    assert forall|k: int| p < k < p + 1 + f.len() implies s[k] != '"' && s[k] != '\\' by {
        assert(s[k] == s.subrange(p, p + f.len() + 2)[k - p]);
        assert(js[k - p] == f[k - p - 1]);
    }
    let j2 = p + 1 + f.len();
    assert(p < j2 < s.len() && s[p] == '"' && s[j2] == '"' && (forall|k: int|
        p < k < j2 ==> s[k] != '"' && s[k] != '\\'));
}

/// What `scan_string` read at a canonically rendered string field is that
/// field, ending right after its closing quote.
proof fn lemma_string_pin(s: Seq<char>, p: int, f: Seq<char>, got: Seq<char>, p2: int)
    requires
        json_str_wf(f),
        0 <= p,
        p + f.len() + 2 <= s.len(),
        s.subrange(p, p + f.len() + 2) == json_string(f),
        p + 1 < p2 <= s.len(),
        s[p2 - 1] == '"',
        got == s.subrange(p + 1, p2 - 1),
        forall|k: int| p < k < p2 - 1 ==> s[k] != '"',
    ensures
        p2 == p + f.len() + 2,
        got == f,
{
    lemma_string_scan_ready(s, p, f);
    let j = p + 1 + f.len();
    if p2 - 1 < j {
        assert(s[p2 - 1] != '"');
        assert(false);
    }
    if p2 - 1 > j {
        assert(s[j] != '"');
        assert(false);
    }
    reveal_strlit("\"");
    assert forall|i: int| 0 <= i < f.len() implies got[i] == f[i] by {
        assert(got[i] == s[p + 1 + i]);
        assert(s[p + 1 + i] == s.subrange(p, p + f.len() + 2)[1 + i]);
        assert(json_string(f)[1 + i] == f[i]);
    }
    assert(got =~= f);
}

/// A canonically rendered number field is ready for `scan_u64`: the digit run
/// is exactly the rendering and ends at the non-digit that follows.
proof fn lemma_dec_scan_ready(s: Seq<char>, p: int, n: u64)
    requires
        0 <= p,
        p + dec_digits(n as nat).len() < s.len(),
        s.subrange(p, p + dec_digits(n as nat).len()) == dec_digits(n as nat),
        !is_dec_digit(s[p + dec_digits(n as nat).len()]),
    ensures
        digit_run_end(s, p) == p + dec_digits(n as nat).len(),
        digits_val(s.subrange(p, digit_run_end(s, p))) == n,
        p < digit_run_end(s, p),
        s[p] != '0' || digit_run_end(s, p) == p + 1,
{
    let d = dec_digits(n as nat);
    crate::strutil::lemma_dec_digits_are_digits(n as nat);
    crate::strutil::lemma_dec_digits_val(n as nat);
    crate::strutil::lemma_dec_digits_len(n as nat);
    crate::strutil::lemma_dec_digits_no_leading_zero(n as nat);
    assert forall|k: int| p <= k < p + d.len() implies is_dec_digit(#[trigger] s[k]) by {
        assert(s[k] == s.subrange(p, p + d.len())[k - p]);
        assert(is_dec_digit(d[k - p]));
    }
    lemma_digit_run_end_of(s, p, p + d.len());
    assert(s[p] == d[0]);
}

/// Reassembles consecutive field spans into one canonical transaction span.
#[verifier::rlimit(100)]
proof fn lemma_tx_assemble(
    s: Seq<char>,
    pos: int,
    p1: int,
    p2: int,
    p3: int,
    p4: int,
    p5: int,
    p6: int,
    p7: int,
    p8: int,
    p9: int,
    p10: int,
    p11: int,
    p12: int,
    p13: int,
    t: Transaction,
)
    requires
        0 <= pos,
        p13 <= s.len(),
        pos <= p1 <= p2 <= p3 <= p4 <= p5 <= p6 <= p7 <= p8 <= p9 <= p10 <= p11 <= p12 <= p13,
        s.subrange(pos, p1) == "{\"from\":"@,
        s.subrange(p1, p2) == json_string(t.from@),
        s.subrange(p2, p3) == ",\"to\":"@,
        s.subrange(p3, p4) == json_string(t.to@),
        s.subrange(p4, p5) == ",\"amount\":"@,
        s.subrange(p5, p6) == dec_digits(t.amount as nat),
        s.subrange(p6, p7) == ",\"timestamp\":"@,
        s.subrange(p7, p8) == dec_digits(t.timestamp as nat),
        s.subrange(p8, p9) == ",\"signature\":"@,
        s.subrange(p9, p10) == json_string(t.signature@),
        s.subrange(p10, p11) == ",\"public_key\":"@,
        s.subrange(p11, p12) == json_string(t.public_key@),
        s.subrange(p12, p13) == "}"@,
    ensures
        s.subrange(pos, p13) == json_of_tx(t),
        p13 == pos + json_of_tx(t).len(),
{
    assert(s.subrange(pos, p2) =~= "{\"from\":"@ + json_string(t.from@));
    assert(s.subrange(pos, p3) =~= s.subrange(pos, p2) + ",\"to\":"@);
    assert(s.subrange(pos, p4) =~= s.subrange(pos, p3) + json_string(t.to@));
    assert(s.subrange(pos, p5) =~= s.subrange(pos, p4) + ",\"amount\":"@);
    assert(s.subrange(pos, p6) =~= s.subrange(pos, p5) + dec_digits(t.amount as nat));
    assert(s.subrange(pos, p7) =~= s.subrange(pos, p6) + ",\"timestamp\":"@);
    assert(s.subrange(pos, p8) =~= s.subrange(pos, p7) + dec_digits(t.timestamp as nat));
    assert(s.subrange(pos, p9) =~= s.subrange(pos, p8) + ",\"signature\":"@);
    assert(s.subrange(pos, p10) =~= s.subrange(pos, p9) + json_string(t.signature@));
    assert(s.subrange(pos, p11) =~= s.subrange(pos, p10) + ",\"public_key\":"@);
    assert(s.subrange(pos, p12) =~= s.subrange(pos, p11) + json_string(t.public_key@));
    assert(s.subrange(pos, p13) =~= s.subrange(pos, p12) + "}"@);
}

/// Reads one transaction object in canonical field order. Whatever it reads
/// is a canonically encoded transaction spanning exactly what was consumed;
/// it succeeds, consuming exactly the encoding, whenever a canonically
/// encoded transaction stands at `pos`.
#[verifier::rlimit(100)]
fn scan_tx(s: &str, pos: usize) -> (r: Option<(Transaction, usize)>)
    requires
        pos <= s@.len(),
    ensures
        r matches Some(p) ==> {
            &&& pos < p.1 <= s@.len()
            &&& p.1 == pos + json_of_tx(p.0).len()
            &&& s@.subrange(pos as int, p.1 as int) == json_of_tx(p.0)
            &&& tx_json_wf(p.0)
        },
        forall|t: Transaction|
            tx_encoded_at(s@, pos as int, t) ==> (r matches Some(p) && p.1 == pos + json_of_tx(
                t,
            ).len()),
{
    proof {
        reveal_strlit("{\"from\":");
        reveal_strlit(",\"to\":");
        reveal_strlit(",\"amount\":");
        reveal_strlit(",\"timestamp\":");
        reveal_strlit(",\"signature\":");
        reveal_strlit(",\"public_key\":");
        reveal_strlit("}");
    }
    let p1 = match skip_expect(s, pos, "{\"from\":") {
        Some(p) => p,
        None => {
            proof {
                assert forall|t: Transaction| !tx_encoded_at(s@, pos as int, t) by {
                    if tx_encoded_at(s@, pos as int, t) {
                        lemma_tx_layout(s@, pos as int, t);
                    }
                }
            }
            return None;
        },
    };
    let (from, p2) = match scan_string(s, p1) {
        Some(x) => x,
        None => {
            proof {
                assert forall|t: Transaction| !tx_encoded_at(s@, pos as int, t) by {
                    if tx_encoded_at(s@, pos as int, t) {
                        lemma_tx_layout(s@, pos as int, t);
                        lemma_string_scan_ready(s@, p1 as int, t.from@);
                    }
                }
            }
            return None;
        },
    };
    proof {
        assert forall|t: Transaction| tx_encoded_at(s@, pos as int, t) implies p2 == pos + 8
            + t.from@.len() + 2 by {
            lemma_tx_layout(s@, pos as int, t);
            lemma_string_pin(s@, p1 as int, t.from@, from@, p2 as int);
        }
    }
    let p3 = match skip_expect(s, p2, ",\"to\":") {
        Some(p) => p,
        None => {
            proof {
                assert forall|t: Transaction| !tx_encoded_at(s@, pos as int, t) by {
                    if tx_encoded_at(s@, pos as int, t) {
                        lemma_tx_layout(s@, pos as int, t);
                        lemma_string_pin(s@, p1 as int, t.from@, from@, p2 as int);
                    }
                }
            }
            return None;
        },
    };
    let (to, p4) = match scan_string(s, p3) {
        Some(x) => x,
        None => {
            proof {
                assert forall|t: Transaction| !tx_encoded_at(s@, pos as int, t) by {
                    if tx_encoded_at(s@, pos as int, t) {
                        lemma_tx_layout(s@, pos as int, t);
                        lemma_string_scan_ready(s@, p3 as int, t.to@);
                    }
                }
            }
            return None;
        },
    };
    proof {
        assert forall|t: Transaction| tx_encoded_at(s@, pos as int, t) implies p4 == p3
            + t.to@.len() + 2 by {
            lemma_tx_layout(s@, pos as int, t);
            lemma_string_pin(s@, p3 as int, t.to@, to@, p4 as int);
        }
    }
    let p5 = match skip_expect(s, p4, ",\"amount\":") {
        Some(p) => p,
        None => {
            proof {
                assert forall|t: Transaction| !tx_encoded_at(s@, pos as int, t) by {
                    if tx_encoded_at(s@, pos as int, t) {
                        lemma_tx_layout(s@, pos as int, t);
                        lemma_string_pin(s@, p3 as int, t.to@, to@, p4 as int);
                    }
                }
            }
            return None;
        },
    };
    let (amount, p6) = match scan_u64(s, p5) {
        Some(x) => x,
        None => {
            proof {
                assert forall|t: Transaction| !tx_encoded_at(s@, pos as int, t) by {
                    if tx_encoded_at(s@, pos as int, t) {
                        lemma_tx_layout(s@, pos as int, t);
                        assert(s@[p5 + dec_digits(t.amount as nat).len()] == ",\"timestamp\":"@[0]);
                        lemma_dec_scan_ready(s@, p5 as int, t.amount);
                    }
                }
            }
            return None;
        },
    };
    proof {
        assert forall|t: Transaction| tx_encoded_at(s@, pos as int, t) implies p6 == p5
            + dec_digits(t.amount as nat).len() by {
            lemma_tx_layout(s@, pos as int, t);
            assert(s@[p5 + dec_digits(t.amount as nat).len()] == ",\"timestamp\":"@[0]);
            lemma_dec_scan_ready(s@, p5 as int, t.amount);
        }
    }
    let p7 = match skip_expect(s, p6, ",\"timestamp\":") {
        Some(p) => p,
        None => {
            proof {
                assert forall|t: Transaction| !tx_encoded_at(s@, pos as int, t) by {
                    if tx_encoded_at(s@, pos as int, t) {
                        lemma_tx_layout(s@, pos as int, t);
                        assert(s@[p5 + dec_digits(t.amount as nat).len()] == ",\"timestamp\":"@[0]);
                        lemma_dec_scan_ready(s@, p5 as int, t.amount);
                    }
                }
            }
            return None;
        },
    };
    let (timestamp, p8) = match scan_u64(s, p7) {
        Some(x) => x,
        None => {
            proof {
                assert forall|t: Transaction| !tx_encoded_at(s@, pos as int, t) by {
                    if tx_encoded_at(s@, pos as int, t) {
                        lemma_tx_layout(s@, pos as int, t);
                        assert(s@[p7 + dec_digits(t.timestamp as nat).len()]
                            == ",\"signature\":"@[0]);
                        lemma_dec_scan_ready(s@, p7 as int, t.timestamp);
                    }
                }
            }
            return None;
        },
    };
    proof {
        assert forall|t: Transaction| tx_encoded_at(s@, pos as int, t) implies p8 == p7
            + dec_digits(t.timestamp as nat).len() by {
            lemma_tx_layout(s@, pos as int, t);
            assert(s@[p7 + dec_digits(t.timestamp as nat).len()] == ",\"signature\":"@[0]);
            lemma_dec_scan_ready(s@, p7 as int, t.timestamp);
        }
    }
    let p9 = match skip_expect(s, p8, ",\"signature\":") {
        Some(p) => p,
        None => {
            proof {
                assert forall|t: Transaction| !tx_encoded_at(s@, pos as int, t) by {
                    if tx_encoded_at(s@, pos as int, t) {
                        lemma_tx_layout(s@, pos as int, t);
                    }
                }
            }
            return None;
        },
    };
    let (signature, p10) = match scan_string(s, p9) {
        Some(x) => x,
        None => {
            proof {
                assert forall|t: Transaction| !tx_encoded_at(s@, pos as int, t) by {
                    if tx_encoded_at(s@, pos as int, t) {
                        lemma_tx_layout(s@, pos as int, t);
                        lemma_string_scan_ready(s@, p9 as int, t.signature@);
                    }
                }
            }
            return None;
        },
    };
    proof {
        assert forall|t: Transaction| tx_encoded_at(s@, pos as int, t) implies p10 == p9
            + t.signature@.len() + 2 by {
            lemma_tx_layout(s@, pos as int, t);
            lemma_string_pin(s@, p9 as int, t.signature@, signature@, p10 as int);
        }
    }
    let p11 = match skip_expect(s, p10, ",\"public_key\":") {
        Some(p) => p,
        None => {
            proof {
                assert forall|t: Transaction| !tx_encoded_at(s@, pos as int, t) by {
                    if tx_encoded_at(s@, pos as int, t) {
                        lemma_tx_layout(s@, pos as int, t);
                        lemma_string_pin(s@, p9 as int, t.signature@, signature@, p10 as int);
                    }
                }
            }
            return None;
        },
    };
    let (public_key, p12) = match scan_string(s, p11) {
        Some(x) => x,
        None => {
            proof {
                assert forall|t: Transaction| !tx_encoded_at(s@, pos as int, t) by {
                    if tx_encoded_at(s@, pos as int, t) {
                        lemma_tx_layout(s@, pos as int, t);
                        lemma_string_scan_ready(s@, p11 as int, t.public_key@);
                    }
                }
            }
            return None;
        },
    };
    proof {
        assert forall|t: Transaction| tx_encoded_at(s@, pos as int, t) implies p12 == p11
            + t.public_key@.len() + 2 by {
            lemma_tx_layout(s@, pos as int, t);
            lemma_string_pin(s@, p11 as int, t.public_key@, public_key@, p12 as int);
        }
    }
    let p13 = match skip_expect(s, p12, "}") {
        Some(p) => p,
        None => {
            proof {
                assert forall|t: Transaction| !tx_encoded_at(s@, pos as int, t) by {
                    if tx_encoded_at(s@, pos as int, t) {
                        lemma_tx_layout(s@, pos as int, t);
                        lemma_string_pin(s@, p11 as int, t.public_key@, public_key@, p12 as int);
                    }
                }
            }
            return None;
        },
    };
    let t = Transaction { from, to, amount, timestamp, signature, public_key };
    proof {
        lemma_tx_assemble(
            s@,
            pos as int,
            p1 as int,
            p2 as int,
            p3 as int,
            p4 as int,
            p5 as int,
            p6 as int,
            p7 as int,
            p8 as int,
            p9 as int,
            p10 as int,
            p11 as int,
            p12 as int,
            p13 as int,
            t,
        );
        assert forall|t2: Transaction| tx_encoded_at(s@, pos as int, t2) implies p13 == pos
            + json_of_tx(t2).len() by {
            lemma_tx_layout(s@, pos as int, t2);
        }
    }
    Some((t, p13))
}

/// A canonical transaction list stands at `pos`, closed by ']'.
pub open spec fn txs_encoded_at(s: Seq<char>, pos: int, txs: Seq<Transaction>) -> bool {
    &&& (forall|i: int| 0 <= i < txs.len() ==> tx_json_wf(#[trigger] txs[i]))
    &&& 0 <= pos
    &&& pos + json_of_txs(txs).len() < s.len()
    &&& s.subrange(pos, pos + json_of_txs(txs).len()) == json_of_txs(txs)
    &&& s[pos + json_of_txs(txs).len()] == ']'
}

/// The offset of the `k`-th element inside a rendered transaction list.
pub open spec fn txs_off(txs: Seq<Transaction>, k: int) -> int
    decreases k,
{
    if k <= 0 {
        0
    } else {
        txs_off(txs, k - 1) + json_of_tx(txs[k - 1]).len() + 1
    }
}

proof fn lemma_txs_off_agree(a: Seq<Transaction>, b: Seq<Transaction>, k: int)
    requires
        0 <= k,
        k <= a.len(),
        k <= b.len(),
        forall|i: int| 0 <= i < k ==> a[i] == b[i],
    ensures
        txs_off(a, k) == txs_off(b, k),
    decreases k,
{
    if k > 0 {
        lemma_txs_off_agree(a, b, k - 1);
    }
}

proof fn lemma_txs_off_last(txs: Seq<Transaction>)
    requires
        txs.len() >= 1,
    ensures
        txs_off(txs, txs.len() - 1) >= 0,
        txs_off(txs, txs.len() - 1) + json_of_tx(txs[txs.len() - 1]).len() == json_of_txs(
            txs,
        ).len(),
    decreases txs.len(),
{
    reveal_strlit(",");
    if txs.len() > 1 {
        let front = txs.drop_last();
        lemma_txs_off_last(front);
        lemma_txs_off_agree(txs, front, txs.len() - 2);
        assert(txs[txs.len() - 2] == front[front.len() - 1]);
    }
}

/// Where the `k`-th element of a rendered transaction list stands, and what
/// follows it.
#[verifier::rlimit(100)]
proof fn lemma_txs_chunk(s: Seq<char>, pos: int, txs: Seq<Transaction>, k: int)
    requires
        forall|i: int| 0 <= i < txs.len() ==> tx_json_wf(#[trigger] txs[i]),
        0 <= pos,
        pos + json_of_txs(txs).len() <= s.len(),
        s.subrange(pos, pos + json_of_txs(txs).len()) == json_of_txs(txs),
        0 <= k < txs.len(),
    ensures
        txs_off(txs, k) >= 0,
        txs_off(txs, k) + json_of_tx(txs[k]).len() <= json_of_txs(txs).len(),
        s.subrange(pos + txs_off(txs, k), pos + txs_off(txs, k) + json_of_tx(txs[k]).len())
            == json_of_tx(txs[k]),
        k < txs.len() - 1 ==> txs_off(txs, k) + json_of_tx(txs[k]).len() + 1 <= json_of_txs(
            txs,
        ).len() && s[pos + txs_off(txs, k) + json_of_tx(txs[k]).len()] == ',',
        k == txs.len() - 1 ==> txs_off(txs, k) + json_of_tx(txs[k]).len() == json_of_txs(
            txs,
        ).len(),
    decreases txs.len(),
{
    reveal_strlit(",");
    let l = json_of_txs(txs);
    if txs.len() == 1 {
        assert(s.subrange(pos + 0, pos + json_of_tx(txs[0]).len()) == json_of_tx(txs[0]));
    } else {
        let front = txs.drop_last();
        let fl = json_of_txs(front);
        let last = txs[txs.len() - 1];
        assert(l == fl + ","@ + json_of_tx(last));
        lemma_txs_off_last(txs);
        lemma_txs_off_last(front);
        lemma_txs_off_agree(txs, front, txs.len() - 2);
        if k == txs.len() - 1 {
            assert(txs_off(txs, k) == fl.len() as int + 1) by {
                assert(txs[txs.len() - 2] == front[front.len() - 1]);
            }
            assert(l.subrange(fl.len() as int + 1, l.len() as int) =~= json_of_tx(last));
            lemma_sub_chunk(s, pos, l, fl.len() as int + 1, json_of_tx(last));
        } else {
            assert(l.subrange(0, fl.len() as int) =~= fl);
            lemma_sub_chunk(s, pos, l, 0, fl);
            lemma_txs_chunk(s, pos, front, k);
            lemma_txs_off_agree(txs, front, k + 1);
            lemma_txs_off_agree(txs, front, k);
            assert(txs[k] == front[k]);
            if k < front.len() - 1 {
            } else {
                // the separator between the front and the last element
                assert(l[fl.len() as int] == ","@[0]);
                assert(s.subrange(pos, pos + l.len())[fl.len() as int] == l[fl.len() as int]);
            }
        }
    }
}

/// Reads the contents of a transaction list up to (not past) the closing
/// bracket: what it reads is the canonical rendering of the transactions
/// returned, and it succeeds, consuming exactly the rendering, whenever a
/// canonical list closed by ']' stands at `pos`.
#[verifier::rlimit(60)]
fn scan_tx_list(s: &str, pos: usize) -> (r: Option<(Vec<Transaction>, usize)>)
    requires
        pos <= s@.len(),
    ensures
        r matches Some(p) ==> {
            &&& pos <= p.1 <= s@.len()
            &&& s@.subrange(pos as int, p.1 as int) == json_of_txs(p.0@)
            &&& forall|i: int| 0 <= i < p.0@.len() ==> tx_json_wf(#[trigger] p.0@[i])
        },
        forall|txs: Seq<Transaction>|
            txs_encoded_at(s@, pos as int, txs) ==> (r matches Some(p) && p.1 == pos + json_of_txs(
                txs,
            ).len()),
{
    let slen = s.unicode_len();
    let mut parsed: Vec<Transaction> = Vec::new();
    if pos < slen && s.get_char(pos) == ']' {
        proof {
            assert(s@.subrange(pos as int, pos as int) =~= json_of_txs(parsed@));
            assert forall|txs: Seq<Transaction>| txs_encoded_at(s@, pos as int, txs) implies (
            pos as int) == pos + json_of_txs(txs).len() by {
                if txs.len() > 0 {
                    lemma_txs_chunk(s@, pos as int, txs, 0);
                    reveal_strlit("{\"from\":");
                    assert(s@[pos as int] == s@.subrange(
                        pos as int,
                        pos + json_of_tx(txs[0]).len(),
                    )[0]);
                    assert(json_of_tx(txs[0])[0] == '{');
                    assert(false);
                }
            }
        }
        return Some((parsed, pos));
    }
    proof {
        assert forall|txs: Seq<Transaction>| txs_encoded_at(s@, pos as int, txs) implies parsed@.len()
            < txs.len() && pos == pos + txs_off(txs, parsed@.len() as int) by {
            if txs.len() == 0 {
                assert(json_of_txs(txs).len() == 0);
                assert(s@[pos as int] == ']');
                assert(false);
            }
        }
    }
    let mut p: usize = pos;
    loop
        invariant
            pos <= p <= slen,
            slen == s@.len(),
            parsed@.len() == 0 ==> p == pos,
            parsed@.len() > 0 ==> p > pos && s@.subrange(pos as int, p as int) == json_of_txs(
                parsed@,
            ) + ","@,
            forall|i: int| 0 <= i < parsed@.len() ==> tx_json_wf(#[trigger] parsed@[i]),
            forall|txs: Seq<Transaction>|
                txs_encoded_at(s@, pos as int, txs) ==> parsed@.len() < txs.len() && p == pos
                    + txs_off(txs, parsed@.len() as int),
        decreases slen - p,
    {
        let ghost k = parsed@.len() as int;
        let scanned = scan_tx(s, p);
        match scanned {
            None => {
                proof {
                    assert forall|txs: Seq<Transaction>| !txs_encoded_at(s@, pos as int, txs) by {
                        if txs_encoded_at(s@, pos as int, txs) {
                            lemma_txs_chunk(s@, pos as int, txs, k);
                            assert(tx_encoded_at(s@, p as int, txs[k]));
                            assert(false);
                        }
                    }
                }
                return None;
            },
            Some(x) => {
                let (t, p2) = x;
                proof {
                    assert forall|txs: Seq<Transaction>|
                        txs_encoded_at(s@, pos as int, txs) implies p2 == pos + txs_off(txs, k)
                        + json_of_tx(txs[k]).len() by {
                        lemma_txs_chunk(s@, pos as int, txs, k);
                        assert(tx_encoded_at(s@, p as int, txs[k]));
                    }
                }
                let ghost prev = parsed@;
                parsed.push(t);
                proof {
                    reveal_strlit(",");
                    if k == 0 {
                        assert(parsed@.len() == 1);
                        assert(parsed@[0] == t);
                        assert(json_of_txs(parsed@) == json_of_tx(t));
                        assert(s@.subrange(pos as int, p2 as int) == json_of_tx(t));
                    } else {
                        assert(parsed@.drop_last() =~= prev);
                        assert(json_of_txs(parsed@) == json_of_txs(prev) + ","@ + json_of_tx(t));
                        assert(s@.subrange(pos as int, p2 as int) =~= s@.subrange(
                            pos as int,
                            p as int,
                        ) + s@.subrange(p as int, p2 as int));
                    }
                }
                p = p2;
                if p < slen && s.get_char(p) == ',' {
                    proof {
                        let consumed = s@.subrange(pos as int, p as int);
                        assert forall|txs: Seq<Transaction>|
                            txs_encoded_at(s@, pos as int, txs) implies parsed@.len() < txs.len()
                            && (p + 1) == pos + txs_off(txs, parsed@.len() as int) by {
                            lemma_txs_chunk(s@, pos as int, txs, k);
                            if k == txs.len() - 1 {
                                assert(s@[p as int] == ']');
                                assert(false);
                            }
                        }
                        assert(s@.subrange(pos as int, p + 1) =~= s@.subrange(pos as int, p as int)
                            + ","@);
                    }
                    p = p + 1;
                } else {
                    proof {
                        assert forall|txs: Seq<Transaction>|
                            txs_encoded_at(s@, pos as int, txs) implies p == pos + json_of_txs(
                            txs,
                        ).len() by {
                            lemma_txs_chunk(s@, pos as int, txs, k);
                            if k < txs.len() - 1 {
                                assert(s@[p as int] == ',');
                                assert(p < s@.len());
                                assert(false);
                            }
                        }
                    }
                    return Some((parsed, p));
                }
            },
        }
    }
}

/// `b` stands encoded in canonical form at `pos`.
pub open spec fn block_encoded_at(s: Seq<char>, pos: int, b: BlockV) -> bool {
    &&& block_json_wf(b)
    &&& 0 <= pos
    &&& pos + json_of_block(b).len() <= s.len()
    &&& s.subrange(pos, pos + json_of_block(b).len()) == json_of_block(b)
}

/// Where each field of a canonically encoded block stands in `s`.
#[verifier::rlimit(100)]
proof fn lemma_block_layout(s: Seq<char>, pos: int, b: BlockV)
    requires
        block_encoded_at(s, pos, b),
    ensures
        ({
            let p1 = pos + 9;
            let p2 = p1 + dec_digits(b.index as nat).len();
            let p3 = p2 + 13;
            let p4 = p3 + dec_digits(b.timestamp as nat).len();
            let p5 = p4 + 17;
            let p6 = p5 + json_of_txs(b.transactions).len();
            let p7 = p6 + 14;
            let p8 = p7 + b.prev_hash.len() + 2;
            let p9 = p8 + 8;
            let p10 = p9 + b.hash.len() + 2;
            let p11 = p10 + 9;
            let p12 = p11 + dec_digits(b.nonce as nat).len();
            let p13 = p12 + 1;
            &&& p13 == pos + json_of_block(b).len()
            &&& p13 <= s.len()
            &&& s.subrange(pos, p1) == "{\"index\":"@
            &&& s.subrange(p1, p2) == dec_digits(b.index as nat)
            &&& s.subrange(p2, p3) == ",\"timestamp\":"@
            &&& s.subrange(p3, p4) == dec_digits(b.timestamp as nat)
            &&& s.subrange(p4, p5) == ",\"transactions\":["@
            &&& s.subrange(p5, p6) == json_of_txs(b.transactions)
            &&& s.subrange(p6, p7) == "],\"prev_hash\":"@
            &&& s.subrange(p7, p8) == json_string(b.prev_hash)
            &&& s.subrange(p8, p9) == ",\"hash\":"@
            &&& s.subrange(p9, p10) == json_string(b.hash)
            &&& s.subrange(p10, p11) == ",\"nonce\":"@
            &&& s.subrange(p11, p12) == dec_digits(b.nonce as nat)
            &&& s.subrange(p12, p13) == "}"@
        }),
{
    reveal_strlit("{\"index\":");
    reveal_strlit(",\"timestamp\":");
    reveal_strlit(",\"transactions\":[");
    reveal_strlit("],\"prev_hash\":");
    reveal_strlit(",\"hash\":");
    reveal_strlit(",\"nonce\":");
    reveal_strlit("}");
    reveal_strlit("\"");
    let j = json_of_block(b);
    let a1 = "{\"index\":"@;
    let d1 = dec_digits(b.index as nat);
    let a2 = ",\"timestamp\":"@;
    let d2 = dec_digits(b.timestamp as nat);
    let a3 = ",\"transactions\":["@;
    let tl = json_of_txs(b.transactions);
    let a4 = "],\"prev_hash\":"@;
    let s1 = json_string(b.prev_hash);
    let a5 = ",\"hash\":"@;
    let s2 = json_string(b.hash);
    let a6 = ",\"nonce\":"@;
    let d3 = dec_digits(b.nonce as nat);
    let a7 = "}"@;
    let o1 = a1.len() as int;
    let o2 = o1 + d1.len();
    let o3 = o2 + a2.len();
    let o4 = o3 + d2.len();
    let o5 = o4 + a3.len();
    let o6 = o5 + tl.len();
    let o7 = o6 + a4.len();
    let o8 = o7 + s1.len();
    let o9 = o8 + a5.len();
    let o10 = o9 + s2.len();
    let o11 = o10 + a6.len();
    let o12 = o11 + d3.len();
    let o13 = o12 + a7.len();
    assert(j.len() == o13);
    assert(j.subrange(0, o1) =~= a1);
    assert(j.subrange(o1, o2) =~= d1);
    assert(j.subrange(o2, o3) =~= a2);
    assert(j.subrange(o3, o4) =~= d2);
    assert(j.subrange(o4, o5) =~= a3);
    assert(j.subrange(o5, o6) =~= tl);
    assert(j.subrange(o6, o7) =~= a4);
    assert(j.subrange(o7, o8) =~= s1);
    assert(j.subrange(o8, o9) =~= a5);
    assert(j.subrange(o9, o10) =~= s2);
    assert(j.subrange(o10, o11) =~= a6);
    assert(j.subrange(o11, o12) =~= d3);
    assert(j.subrange(o12, o13) =~= a7);
    lemma_sub_chunk(s, pos, j, 0, a1);
    lemma_sub_chunk(s, pos, j, o1, d1);
    lemma_sub_chunk(s, pos, j, o2, a2);
    lemma_sub_chunk(s, pos, j, o3, d2);
    lemma_sub_chunk(s, pos, j, o4, a3);
    lemma_sub_chunk(s, pos, j, o5, tl);
    lemma_sub_chunk(s, pos, j, o6, a4);
    lemma_sub_chunk(s, pos, j, o7, s1);
    lemma_sub_chunk(s, pos, j, o8, a5);
    lemma_sub_chunk(s, pos, j, o9, s2);
    lemma_sub_chunk(s, pos, j, o10, a6);
    lemma_sub_chunk(s, pos, j, o11, d3);
    lemma_sub_chunk(s, pos, j, o12, a7);
}

/// Reassembles consecutive field spans into one canonical block span.
#[verifier::rlimit(100)]
proof fn lemma_block_assemble(
    s: Seq<char>,
    pos: int,
    p1: int,
    p2: int,
    p3: int,
    p4: int,
    p5: int,
    p6: int,
    p7: int,
    p8: int,
    p9: int,
    p10: int,
    p11: int,
    p12: int,
    p13: int,
    b: BlockV,
)
    requires
        0 <= pos,
        p13 <= s.len(),
        pos <= p1 <= p2 <= p3 <= p4 <= p5 <= p6 <= p7 <= p8 <= p9 <= p10 <= p11 <= p12 <= p13,
        s.subrange(pos, p1) == "{\"index\":"@,
        s.subrange(p1, p2) == dec_digits(b.index as nat),
        s.subrange(p2, p3) == ",\"timestamp\":"@,
        s.subrange(p3, p4) == dec_digits(b.timestamp as nat),
        s.subrange(p4, p5) == ",\"transactions\":["@,
        s.subrange(p5, p6) == json_of_txs(b.transactions),
        s.subrange(p6, p7) == "],\"prev_hash\":"@,
        s.subrange(p7, p8) == json_string(b.prev_hash),
        s.subrange(p8, p9) == ",\"hash\":"@,
        s.subrange(p9, p10) == json_string(b.hash),
        s.subrange(p10, p11) == ",\"nonce\":"@,
        s.subrange(p11, p12) == dec_digits(b.nonce as nat),
        s.subrange(p12, p13) == "}"@,
    ensures
        s.subrange(pos, p13) == json_of_block(b),
        p13 == pos + json_of_block(b).len(),
{
    assert(s.subrange(pos, p2) =~= "{\"index\":"@ + dec_digits(b.index as nat));
    assert(s.subrange(pos, p3) =~= s.subrange(pos, p2) + ",\"timestamp\":"@);
    assert(s.subrange(pos, p4) =~= s.subrange(pos, p3) + dec_digits(b.timestamp as nat));
    assert(s.subrange(pos, p5) =~= s.subrange(pos, p4) + ",\"transactions\":["@);
    assert(s.subrange(pos, p6) =~= s.subrange(pos, p5) + json_of_txs(b.transactions));
    assert(s.subrange(pos, p7) =~= s.subrange(pos, p6) + "],\"prev_hash\":"@);
    assert(s.subrange(pos, p8) =~= s.subrange(pos, p7) + json_string(b.prev_hash));
    assert(s.subrange(pos, p9) =~= s.subrange(pos, p8) + ",\"hash\":"@);
    assert(s.subrange(pos, p10) =~= s.subrange(pos, p9) + json_string(b.hash));
    assert(s.subrange(pos, p11) =~= s.subrange(pos, p10) + ",\"nonce\":"@);
    assert(s.subrange(pos, p12) =~= s.subrange(pos, p11) + dec_digits(b.nonce as nat));
    assert(s.subrange(pos, p13) =~= s.subrange(pos, p12) + "}"@);
}

/// Reads one block object in canonical field order. Whatever it reads is a
/// canonically encoded block spanning exactly what was consumed; it succeeds,
/// consuming exactly the encoding, whenever a canonically encoded block
/// stands at `pos`.
#[verifier::rlimit(100)]
fn scan_block(s: &str, pos: usize) -> (r: Option<(Block, usize)>)
    requires
        pos <= s@.len(),
    ensures
        r matches Some(p) ==> {
            &&& pos < p.1 <= s@.len()
            &&& p.1 == pos + json_of_block(p.0@).len()
            &&& s@.subrange(pos as int, p.1 as int) == json_of_block(p.0@)
            &&& block_json_wf(p.0@)
        },
        forall|b: BlockV|
            block_encoded_at(s@, pos as int, b) ==> (r matches Some(p) && p.1 == pos
                + json_of_block(b).len()),
{
    proof {
        reveal_strlit("{\"index\":");
        reveal_strlit(",\"timestamp\":");
        reveal_strlit(",\"transactions\":[");
        reveal_strlit("],\"prev_hash\":");
        reveal_strlit(",\"hash\":");
        reveal_strlit(",\"nonce\":");
        reveal_strlit("}");
    }
    let p1 = match skip_expect(s, pos, "{\"index\":") {
        Some(p) => p,
        None => {
            proof {
                assert forall|b: BlockV| !block_encoded_at(s@, pos as int, b) by {
                    if block_encoded_at(s@, pos as int, b) {
                        lemma_block_layout(s@, pos as int, b);
                    }
                }
            }
            return None;
        },
    };
    let (index64, p2) = match scan_u64(s, p1) {
        Some(x) => x,
        None => {
            proof {
                assert forall|b: BlockV| !block_encoded_at(s@, pos as int, b) by {
                    if block_encoded_at(s@, pos as int, b) {
                        lemma_block_layout(s@, pos as int, b);
                        assert(s@[p1 + dec_digits(b.index as nat).len()] == ",\"timestamp\":"@[0]);
                        lemma_dec_scan_ready(s@, p1 as int, b.index as u64);
                    }
                }
            }
            return None;
        },
    };
    proof {
        assert forall|b: BlockV| block_encoded_at(s@, pos as int, b) implies p2 == p1 + dec_digits(
            b.index as nat,
        ).len() && index64 == b.index by {
            lemma_block_layout(s@, pos as int, b);
            assert(s@[p1 + dec_digits(b.index as nat).len()] == ",\"timestamp\":"@[0]);
            lemma_dec_scan_ready(s@, p1 as int, b.index as u64);
        }
    }
    if index64 > u32::MAX as u64 {
        proof {
            assert forall|b: BlockV| !block_encoded_at(s@, pos as int, b) by {
                if block_encoded_at(s@, pos as int, b) {
                    assert(index64 == b.index);
                }
            }
        }
        return None;
    }
    let index = index64 as u32;
    let p3 = match skip_expect(s, p2, ",\"timestamp\":") {
        Some(p) => p,
        None => {
            proof {
                assert forall|b: BlockV| !block_encoded_at(s@, pos as int, b) by {
                    if block_encoded_at(s@, pos as int, b) {
                        lemma_block_layout(s@, pos as int, b);
                    }
                }
            }
            return None;
        },
    };
    let (timestamp, p4) = match scan_u64(s, p3) {
        Some(x) => x,
        None => {
            proof {
                assert forall|b: BlockV| !block_encoded_at(s@, pos as int, b) by {
                    if block_encoded_at(s@, pos as int, b) {
                        lemma_block_layout(s@, pos as int, b);
                        assert(s@[p3 + dec_digits(b.timestamp as nat).len()]
                            == ",\"transactions\":["@[0]);
                        lemma_dec_scan_ready(s@, p3 as int, b.timestamp);
                    }
                }
            }
            return None;
        },
    };
    proof {
        assert forall|b: BlockV| block_encoded_at(s@, pos as int, b) implies p4 == p3 + dec_digits(
            b.timestamp as nat,
        ).len() by {
            lemma_block_layout(s@, pos as int, b);
            assert(s@[p3 + dec_digits(b.timestamp as nat).len()] == ",\"transactions\":["@[0]);
            lemma_dec_scan_ready(s@, p3 as int, b.timestamp);
        }
    }
    let p5 = match skip_expect(s, p4, ",\"transactions\":[") {
        Some(p) => p,
        None => {
            proof {
                assert forall|b: BlockV| !block_encoded_at(s@, pos as int, b) by {
                    if block_encoded_at(s@, pos as int, b) {
                        lemma_block_layout(s@, pos as int, b);
                    }
                }
            }
            return None;
        },
    };
    let (transactions, p6) = match scan_tx_list(s, p5) {
        Some(x) => x,
        None => {
            proof {
                assert forall|b: BlockV| !block_encoded_at(s@, pos as int, b) by {
                    if block_encoded_at(s@, pos as int, b) {
                        lemma_block_layout(s@, pos as int, b);
                        assert(s@[p5 + json_of_txs(b.transactions).len()] == "],\"prev_hash\":"@[0]);
                        assert(txs_encoded_at(s@, p5 as int, b.transactions));
                    }
                }
            }
            return None;
        },
    };
    proof {
        assert forall|b: BlockV| block_encoded_at(s@, pos as int, b) implies p6 == p5 + json_of_txs(
            b.transactions,
        ).len() by {
            lemma_block_layout(s@, pos as int, b);
            assert(s@[p5 + json_of_txs(b.transactions).len()] == "],\"prev_hash\":"@[0]);
            assert(txs_encoded_at(s@, p5 as int, b.transactions));
        }
    }
    let p7 = match skip_expect(s, p6, "],\"prev_hash\":") {
        Some(p) => p,
        None => {
            proof {
                assert forall|b: BlockV| !block_encoded_at(s@, pos as int, b) by {
                    if block_encoded_at(s@, pos as int, b) {
                        lemma_block_layout(s@, pos as int, b);
                    }
                }
            }
            return None;
        },
    };
    let (prev_hash, p8) = match scan_string(s, p7) {
        Some(x) => x,
        None => {
            proof {
                assert forall|b: BlockV| !block_encoded_at(s@, pos as int, b) by {
                    if block_encoded_at(s@, pos as int, b) {
                        lemma_block_layout(s@, pos as int, b);
                        lemma_string_scan_ready(s@, p7 as int, b.prev_hash);
                    }
                }
            }
            return None;
        },
    };
    proof {
        assert forall|b: BlockV| block_encoded_at(s@, pos as int, b) implies p8 == p7
            + b.prev_hash.len() + 2 by {
            lemma_block_layout(s@, pos as int, b);
            lemma_string_pin(s@, p7 as int, b.prev_hash, prev_hash@, p8 as int);
        }
    }
    let p9 = match skip_expect(s, p8, ",\"hash\":") {
        Some(p) => p,
        None => {
            proof {
                assert forall|b: BlockV| !block_encoded_at(s@, pos as int, b) by {
                    if block_encoded_at(s@, pos as int, b) {
                        lemma_block_layout(s@, pos as int, b);
                        lemma_string_pin(s@, p7 as int, b.prev_hash, prev_hash@, p8 as int);
                    }
                }
            }
            return None;
        },
    };
    let (hash, p10) = match scan_string(s, p9) {
        Some(x) => x,
        None => {
            proof {
                assert forall|b: BlockV| !block_encoded_at(s@, pos as int, b) by {
                    if block_encoded_at(s@, pos as int, b) {
                        lemma_block_layout(s@, pos as int, b);
                        lemma_string_scan_ready(s@, p9 as int, b.hash);
                    }
                }
            }
            return None;
        },
    };
    proof {
        assert forall|b: BlockV| block_encoded_at(s@, pos as int, b) implies p10 == p9 + b.hash.len()
            + 2 by {
            lemma_block_layout(s@, pos as int, b);
            lemma_string_pin(s@, p9 as int, b.hash, hash@, p10 as int);
        }
    }
    let p11 = match skip_expect(s, p10, ",\"nonce\":") {
        Some(p) => p,
        None => {
            proof {
                assert forall|b: BlockV| !block_encoded_at(s@, pos as int, b) by {
                    if block_encoded_at(s@, pos as int, b) {
                        lemma_block_layout(s@, pos as int, b);
                        lemma_string_pin(s@, p9 as int, b.hash, hash@, p10 as int);
                    }
                }
            }
            return None;
        },
    };
    let (nonce64, p12) = match scan_u64(s, p11) {
        Some(x) => x,
        None => {
            proof {
                assert forall|b: BlockV| !block_encoded_at(s@, pos as int, b) by {
                    if block_encoded_at(s@, pos as int, b) {
                        lemma_block_layout(s@, pos as int, b);
                        assert(s@[p11 + dec_digits(b.nonce as nat).len()] == "}"@[0]);
                        lemma_dec_scan_ready(s@, p11 as int, b.nonce as u64);
                    }
                }
            }
            return None;
        },
    };
    proof {
        assert forall|b: BlockV| block_encoded_at(s@, pos as int, b) implies p12 == p11
            + dec_digits(b.nonce as nat).len() && nonce64 == b.nonce by {
            lemma_block_layout(s@, pos as int, b);
            assert(s@[p11 + dec_digits(b.nonce as nat).len()] == "}"@[0]);
            lemma_dec_scan_ready(s@, p11 as int, b.nonce as u64);
        }
    }
    if nonce64 > u32::MAX as u64 {
        proof {
            assert forall|b: BlockV| !block_encoded_at(s@, pos as int, b) by {
                if block_encoded_at(s@, pos as int, b) {
                    assert(nonce64 == b.nonce);
                }
            }
        }
        return None;
    }
    let nonce = nonce64 as u32;
    let p13 = match skip_expect(s, p12, "}") {
        Some(p) => p,
        None => {
            proof {
                assert forall|b: BlockV| !block_encoded_at(s@, pos as int, b) by {
                    if block_encoded_at(s@, pos as int, b) {
                        lemma_block_layout(s@, pos as int, b);
                    }
                }
            }
            return None;
        },
    };
    let b = Block { index, timestamp, transactions, prev_hash, hash, nonce };
    proof {
        assert(dec_digits(b@.index as nat) == dec_digits(index64 as nat));
        assert(dec_digits(b@.nonce as nat) == dec_digits(nonce64 as nat));
        lemma_block_assemble(
            s@,
            pos as int,
            p1 as int,
            p2 as int,
            p3 as int,
            p4 as int,
            p5 as int,
            p6 as int,
            p7 as int,
            p8 as int,
            p9 as int,
            p10 as int,
            p11 as int,
            p12 as int,
            p13 as int,
            b@,
        );
        assert forall|b2: BlockV| block_encoded_at(s@, pos as int, b2) implies p13 == pos
            + json_of_block(b2).len() by {
            lemma_block_layout(s@, pos as int, b2);
        }
    }
    Some((b, p13))
}

/// Reads the contents of a block list/// A canonical block list stands at `pos`, closed by ']'.
pub open spec fn blocks_encoded_at(s: Seq<char>, pos: int, bs: Seq<BlockV>) -> bool {
    &&& (forall|i: int| 0 <= i < bs.len() ==> block_json_wf(#[trigger] bs[i]))
    &&& 0 <= pos
    &&& pos + json_of_blocks(bs).len() < s.len()
    &&& s.subrange(pos, pos + json_of_blocks(bs).len()) == json_of_blocks(bs)
    &&& s[pos + json_of_blocks(bs).len()] == ']'
}

/// The offset of the `k`-th element inside a rendered block list.
pub open spec fn blocks_off(bs: Seq<BlockV>, k: int) -> int
    decreases k,
{
    if k <= 0 {
        0
    } else {
        blocks_off(bs, k - 1) + json_of_block(bs[k - 1]).len() + 1
    }
}

proof fn lemma_blocks_off_agree(a: Seq<BlockV>, b: Seq<BlockV>, k: int)
    requires
        0 <= k,
        k <= a.len(),
        k <= b.len(),
        forall|i: int| 0 <= i < k ==> a[i] == b[i],
    ensures
        blocks_off(a, k) == blocks_off(b, k),
    decreases k,
{
    if k > 0 {
        lemma_blocks_off_agree(a, b, k - 1);
    }
}

proof fn lemma_blocks_off_last(bs: Seq<BlockV>)
    requires
        bs.len() >= 1,
    ensures
        blocks_off(bs, bs.len() - 1) >= 0,
        blocks_off(bs, bs.len() - 1) + json_of_block(bs[bs.len() - 1]).len() == json_of_blocks(
            bs,
        ).len(),
    decreases bs.len(),
{
    reveal_strlit(",");
    if bs.len() > 1 {
        let front = bs.drop_last();
        lemma_blocks_off_last(front);
        lemma_blocks_off_agree(bs, front, bs.len() - 2);
        assert(bs[bs.len() - 2] == front[front.len() - 1]);
    }
}

/// Where the `k`-th element of a rendered block list stands, and what
/// follows it.
#[verifier::rlimit(100)]
proof fn lemma_blocks_chunk(s: Seq<char>, pos: int, bs: Seq<BlockV>, k: int)
    requires
        forall|i: int| 0 <= i < bs.len() ==> block_json_wf(#[trigger] bs[i]),
        0 <= pos,
        pos + json_of_blocks(bs).len() <= s.len(),
        s.subrange(pos, pos + json_of_blocks(bs).len()) == json_of_blocks(bs),
        0 <= k < bs.len(),
    ensures
        blocks_off(bs, k) >= 0,
        blocks_off(bs, k) + json_of_block(bs[k]).len() <= json_of_blocks(bs).len(),
        s.subrange(pos + blocks_off(bs, k), pos + blocks_off(bs, k) + json_of_block(bs[k]).len())
            == json_of_block(bs[k]),
        k < bs.len() - 1 ==> blocks_off(bs, k) + json_of_block(bs[k]).len() + 1 <= json_of_blocks(
            bs,
        ).len() && s[pos + blocks_off(bs, k) + json_of_block(bs[k]).len()] == ',',
        k == bs.len() - 1 ==> blocks_off(bs, k) + json_of_block(bs[k]).len() == json_of_blocks(
            bs,
        ).len(),
    decreases bs.len(),
{
    reveal_strlit(",");
    let l = json_of_blocks(bs);
    if bs.len() == 1 {
        assert(s.subrange(pos + 0, pos + json_of_block(bs[0]).len()) == json_of_block(bs[0]));
    } else {
        let front = bs.drop_last();
        let fl = json_of_blocks(front);
        let last = bs[bs.len() - 1];
        assert(l == fl + ","@ + json_of_block(last));
        lemma_blocks_off_last(bs);
        lemma_blocks_off_last(front);
        lemma_blocks_off_agree(bs, front, bs.len() - 2);
        if k == bs.len() - 1 {
            assert(blocks_off(bs, k) == fl.len() as int + 1) by {
                assert(bs[bs.len() - 2] == front[front.len() - 1]);
            }
            assert(l.subrange(fl.len() as int + 1, l.len() as int) =~= json_of_block(last));
            lemma_sub_chunk(s, pos, l, fl.len() as int + 1, json_of_block(last));
        } else {
            assert(l.subrange(0, fl.len() as int) =~= fl);
            lemma_sub_chunk(s, pos, l, 0, fl);
            lemma_blocks_chunk(s, pos, front, k);
            lemma_blocks_off_agree(bs, front, k + 1);
            lemma_blocks_off_agree(bs, front, k);
            assert(bs[k] == front[k]);
            if k < front.len() - 1 {
            } else {
                assert(l[fl.len() as int] == ","@[0]);
                assert(s.subrange(pos, pos + l.len())[fl.len() as int] == l[fl.len() as int]);
            }
        }
    }
}

/// Reads the contents of a block list up to (not past) the closing bracket:
/// what it reads is the canonical rendering of the blocks returned, and it
/// succeeds, consuming exactly the rendering, whenever a canonical list
/// closed by ']' stands at `pos`.
#[verifier::rlimit(60)]
fn scan_block_list(s: &str, pos: usize) -> (r: Option<(Vec<Block>, usize)>)
    requires
        pos <= s@.len(),
    ensures
        r matches Some(p) ==> {
            &&& pos <= p.1 <= s@.len()
            &&& s@.subrange(pos as int, p.1 as int) == json_of_blocks(p.0.deep_view())
            &&& forall|i: int|
                0 <= i < p.0.deep_view().len() ==> block_json_wf(#[trigger] p.0.deep_view()[i])
        },
        forall|bs: Seq<BlockV>|
            blocks_encoded_at(s@, pos as int, bs) ==> (r matches Some(p) && p.1 == pos
                + json_of_blocks(bs).len()),
{
    let slen = s.unicode_len();
    let mut parsed: Vec<Block> = Vec::new();
    if pos < slen && s.get_char(pos) == ']' {
        proof {
            assert(parsed.deep_view() =~= Seq::<BlockV>::empty());
            assert(s@.subrange(pos as int, pos as int) =~= json_of_blocks(parsed.deep_view()));
            assert forall|bs: Seq<BlockV>| blocks_encoded_at(s@, pos as int, bs) implies (
            pos as int) == pos + json_of_blocks(bs).len() by {
                if bs.len() > 0 {
                    lemma_blocks_chunk(s@, pos as int, bs, 0);
                    reveal_strlit("{\"index\":");
                    assert(s@[pos as int] == s@.subrange(
                        pos as int,
                        pos + json_of_block(bs[0]).len(),
                    )[0]);
                    assert(json_of_block(bs[0])[0] == '{');
                    assert(false);
                }
            }
        }
        return Some((parsed, pos));
    }
    proof {
        assert forall|bs: Seq<BlockV>| blocks_encoded_at(s@, pos as int, bs) implies parsed.deep_view().len()
            < bs.len() && pos == pos + blocks_off(bs, parsed.deep_view().len() as int) by {
            if bs.len() == 0 {
                assert(json_of_blocks(bs).len() == 0);
                assert(s@[pos as int] == ']');
                assert(false);
            }
        }
    }
    let mut p: usize = pos;
    loop
        invariant
            pos <= p <= slen,
            slen == s@.len(),
            parsed.deep_view().len() == 0 ==> p == pos,
            parsed.deep_view().len() > 0 ==> p > pos && s@.subrange(pos as int, p as int)
                == json_of_blocks(parsed.deep_view()) + ","@,
            forall|i: int|
                0 <= i < parsed.deep_view().len() ==> block_json_wf(
                    #[trigger] parsed.deep_view()[i],
                ),
            forall|bs: Seq<BlockV>|
                blocks_encoded_at(s@, pos as int, bs) ==> parsed.deep_view().len() < bs.len() && p
                    == pos + blocks_off(bs, parsed.deep_view().len() as int),
        decreases slen - p,
    {
        let ghost k = parsed.deep_view().len() as int;
        let scanned = scan_block(s, p);
        match scanned {
            None => {
                proof {
                    assert forall|bs: Seq<BlockV>| !blocks_encoded_at(s@, pos as int, bs) by {
                        if blocks_encoded_at(s@, pos as int, bs) {
                            lemma_blocks_chunk(s@, pos as int, bs, k);
                            assert(block_encoded_at(s@, p as int, bs[k]));
                            assert(false);
                        }
                    }
                }
                return None;
            },
            Some(x) => {
                let (b, p2) = x;
                proof {
                    assert forall|bs: Seq<BlockV>|
                        blocks_encoded_at(s@, pos as int, bs) implies p2 == pos + blocks_off(bs, k)
                        + json_of_block(bs[k]).len() by {
                        lemma_blocks_chunk(s@, pos as int, bs, k);
                        assert(block_encoded_at(s@, p as int, bs[k]));
                    }
                }
                let ghost prev = parsed.deep_view();
                let ghost bv = b@;
                parsed.push(b);
                proof {
                    reveal_strlit(",");
                    assert(parsed.deep_view() =~= prev.push(bv)) by {
                        assert forall|i: int| 0 <= i < parsed.deep_view().len() implies parsed.deep_view()[i]
                            == prev.push(bv)[i] by {
                            assert(parsed.deep_view()[i] == parsed@[i]@);
                        }
                    }
                    if k == 0 {
                        assert(parsed.deep_view().len() == 1);
                        assert(parsed.deep_view()[0] == bv);
                        assert(json_of_blocks(parsed.deep_view()) == json_of_block(bv));
                        assert(s@.subrange(pos as int, p2 as int) == json_of_block(bv));
                    } else {
                        assert(parsed.deep_view().drop_last() =~= prev);
                        assert(json_of_blocks(parsed.deep_view()) == json_of_blocks(prev) + ","@
                            + json_of_block(bv));
                        assert(s@.subrange(pos as int, p2 as int) =~= s@.subrange(
                            pos as int,
                            p as int,
                        ) + s@.subrange(p as int, p2 as int));
                    }
                }
                p = p2;
                if p < slen && s.get_char(p) == ',' {
                    proof {
                        assert forall|bs: Seq<BlockV>|
                            blocks_encoded_at(s@, pos as int, bs) implies parsed.deep_view().len()
                            < bs.len() && (p + 1) == pos + blocks_off(
                            bs,
                            parsed.deep_view().len() as int,
                        ) by {
                            lemma_blocks_chunk(s@, pos as int, bs, k);
                            if k == bs.len() - 1 {
                                assert(s@[p as int] == ']');
                                assert(false);
                            }
                        }
                        assert(s@.subrange(pos as int, p + 1) =~= s@.subrange(pos as int, p as int)
                            + ","@);
                    }
                    p = p + 1;
                } else {
                    proof {
                        assert forall|bs: Seq<BlockV>|
                            blocks_encoded_at(s@, pos as int, bs) implies p == pos + json_of_blocks(
                            bs,
                        ).len() by {
                            lemma_blocks_chunk(s@, pos as int, bs, k);
                            if k < bs.len() - 1 {
                                assert(s@[p as int] == ',');
                                assert(p < s@.len());
                                assert(false);
                            }
                        }
                    }
                    return Some((parsed, p));
                }
            },
        }
    }
}

/// Where the parts of a canonically rendered sync request stand.
proof fn lemma_msg_layout_sync_request(s: Seq<char>, f: Seq<char>)
    requires
        json_str_wf(f),
        s == "{\"type\":\"SYNC_REQUEST\",\"from\":"@ + json_string(f) + "}"@,
    ensures
        s.len() == 33 + f.len() as int,
        s.subrange(0, 30) == "{\"type\":\"SYNC_REQUEST\",\"from\":"@,
        s.subrange(30, 32 + f.len() as int) == json_string(f),
        s.subrange(32 + f.len() as int, 33 + f.len() as int) == "}"@,
        s[9] == 'S',
        s[16] == 'Q',
{
    reveal_strlit("{\"type\":\"SYNC_REQUEST\",\"from\":");
    reveal_strlit("}");
    reveal_strlit("\"");
    assert(s.subrange(0, 30) =~= "{\"type\":\"SYNC_REQUEST\",\"from\":"@);
    assert(s.subrange(30, 32 + f.len() as int) =~= json_string(f));
    assert(s.subrange(32 + f.len() as int, 33 + f.len() as int) =~= "}"@);
}

/// Where the parts of a canonically rendered sync response stand.
proof fn lemma_msg_layout_sync_response(s: Seq<char>, bs: Seq<BlockV>)
    requires
        forall|i: int| 0 <= i < bs.len() ==> block_json_wf(#[trigger] bs[i]),
        s == "{\"type\":\"SYNC_RESPONSE\",\"chain\":["@ + json_of_blocks(bs) + "]}"@,
    ensures
        s.len() == 35 + json_of_blocks(bs).len() as int,
        s.subrange(0, 33) == "{\"type\":\"SYNC_RESPONSE\",\"chain\":["@,
        s.subrange(33, 33 + json_of_blocks(bs).len() as int) == json_of_blocks(bs),
        s.subrange(33 + json_of_blocks(bs).len() as int, 35 + json_of_blocks(bs).len() as int) == "]}"@,
        s[33 + json_of_blocks(bs).len() as int] == ']',
        blocks_encoded_at(s, 33, bs),
        s[9] == 'S',
        s[16] == 'S',
{
    reveal_strlit("{\"type\":\"SYNC_RESPONSE\",\"chain\":[");
    reveal_strlit("]}");
    assert(s.subrange(0, 33) =~= "{\"type\":\"SYNC_RESPONSE\",\"chain\":["@);
    assert(s.subrange(33, 33 + json_of_blocks(bs).len() as int) =~= json_of_blocks(bs));
    assert(s.subrange(33 + json_of_blocks(bs).len() as int, 35 + json_of_blocks(bs).len() as int) =~= "]}"@);
    assert(s[33 + json_of_blocks(bs).len() as int] == "]}"@[0]);
}

/// Where the parts of a canonically rendered block announcement stand.
proof fn lemma_msg_layout_new_block(s: Seq<char>, b: BlockV)
    requires
        block_json_wf(b),
        s == "{\"type\":\"NEW_BLOCK\",\"block\":"@ + json_of_block(b) + "}"@,
    ensures
        s.len() == 29 + json_of_block(b).len() as int,
        s.subrange(0, 28) == "{\"type\":\"NEW_BLOCK\",\"block\":"@,
        s.subrange(28, 28 + json_of_block(b).len() as int) == json_of_block(b),
        s.subrange(28 + json_of_block(b).len() as int, 29 + json_of_block(b).len() as int) == "}"@,
        block_encoded_at(s, 28, b),
        s[9] == 'N',
        s[13] == 'B',
{
    reveal_strlit("{\"type\":\"NEW_BLOCK\",\"block\":");
    reveal_strlit("}");
    assert(s.subrange(0, 28) =~= "{\"type\":\"NEW_BLOCK\",\"block\":"@);
    assert(s.subrange(28, 28 + json_of_block(b).len() as int) =~= json_of_block(b));
    assert(s.subrange(28 + json_of_block(b).len() as int, 29 + json_of_block(b).len() as int) =~= "}"@);
}

/// Where the parts of a canonically rendered transaction announcement stand.
proof fn lemma_msg_layout_new_transaction(s: Seq<char>, t: Transaction)
    requires
        tx_json_wf(t),
        s == "{\"type\":\"NEW_TRANSACTION\",\"transaction\":"@ + json_of_tx(t) + "}"@,
    ensures
        s.len() == 41 + json_of_tx(t).len() as int,
        s.subrange(0, 40) == "{\"type\":\"NEW_TRANSACTION\",\"transaction\":"@,
        s.subrange(40, 40 + json_of_tx(t).len() as int) == json_of_tx(t),
        s.subrange(40 + json_of_tx(t).len() as int, 41 + json_of_tx(t).len() as int) == "}"@,
        tx_encoded_at(s, 40, t),
        s[9] == 'N',
        s[13] == 'T',
{
    reveal_strlit("{\"type\":\"NEW_TRANSACTION\",\"transaction\":");
    reveal_strlit("}");
    assert(s.subrange(0, 40) =~= "{\"type\":\"NEW_TRANSACTION\",\"transaction\":"@);
    assert(s.subrange(40, 40 + json_of_tx(t).len() as int) =~= json_of_tx(t));
    assert(s.subrange(40 + json_of_tx(t).len() as int, 41 + json_of_tx(t).len() as int) =~= "}"@);
}

/// The four message kinds disagree within their first 17 characters.
proof fn lemma_msg_branch_chars(s: Seq<char>, m: Message)
    requires
        message_json_wf(m),
        s == json_of_message(m),
    ensures
        match m {
            Message::SyncRequest { .. } => s[9] == 'S' && s[16] == 'Q',
            Message::SyncResponse { .. } => s[9] == 'S' && s[16] == 'S',
            Message::NewBlock { .. } => s[9] == 'N' && s[13] == 'B',
            Message::NewTransaction { .. } => s[9] == 'N' && s[13] == 'T',
        },
{
    match m {
        Message::SyncRequest { from } => {
            lemma_msg_layout_sync_request(s, from@);
        },
        Message::SyncResponse { chain } => {
            lemma_msg_layout_sync_response(s, chain.deep_view());
        },
        Message::NewBlock { block } => {
            lemma_msg_layout_new_block(s, block@);
        },
        Message::NewTransaction { transaction } => {
            lemma_msg_layout_new_transaction(s, transaction);
        },
    }
}

/// Parses one wire message: only the exact canonical rendering of a message
/// is accepted, and the canonical rendering of any well-formed message is.
pub fn parse_message(s: &str) -> (r: Option<Message>)
    ensures
        r matches Some(m) ==> s@ == json_of_message(m) && message_json_wf(m),
        (exists|m: Message| message_json_wf(m) && s@ == json_of_message(m)) ==> r is Some,
{
    proof {
        reveal_strlit("{\"type\":\"SYNC_REQUEST\",\"from\":");
        reveal_strlit("{\"type\":\"SYNC_RESPONSE\",\"chain\":[");
        reveal_strlit("{\"type\":\"NEW_BLOCK\",\"block\":");
        reveal_strlit("{\"type\":\"NEW_TRANSACTION\",\"transaction\":");
        reveal_strlit("}");
        reveal_strlit("]}");
    }
    let slen = s.unicode_len();
    if let Some(p) = skip_expect(s, 0, "{\"type\":\"SYNC_REQUEST\",\"from\":") {
        let r1 = scan_string(s, p);
        match r1 {
            Some((from, p2)) => {
                let r2 = skip_expect(s, p2, "}");
                match r2 {
                    Some(p3) => {
                        if p3 == slen {
                            let m = Message::SyncRequest { from };
                            proof {
                                assert(s@ =~= s@.subrange(0, 30) + s@.subrange(30, p2 as int) + s@.subrange(p2 as int, p3 as int));
                                assert(s@ == json_of_message(m));
                            }
                            return Some(m);
                        }
                        proof {
                            assert forall|m: Message| !(message_json_wf(m) && s@ == json_of_message(m)) by {
                                if message_json_wf(m) && s@ == json_of_message(m) {
                                    lemma_msg_branch_chars(s@, m);
                                    match m {
                                Message::SyncRequest { from: f0 } => {
                                lemma_msg_layout_sync_request(s@, f0@);
                                lemma_string_pin(s@, 30, f0@, from@, p2 as int);
                                },
                                Message::SyncResponse { chain: c0 } => {
                                lemma_msg_layout_sync_response(s@, c0.deep_view());
                                assert(s@[16] == s@.subrange(0, 30)[16]);
                                },
                                Message::NewBlock { block: b0 } => {
                                lemma_msg_layout_new_block(s@, b0@);
                                assert(s@[9] == s@.subrange(0, 30)[9]);
                                },
                                Message::NewTransaction { transaction: t0 } => {
                                lemma_msg_layout_new_transaction(s@, t0);
                                assert(s@[9] == s@.subrange(0, 30)[9]);
                                },
                                    }
                                    assert(false);
                                }
                            }
                        }
                        return None;
                    },
                    None => {
                        proof {
                            assert forall|m: Message| !(message_json_wf(m) && s@ == json_of_message(m)) by {
                                if message_json_wf(m) && s@ == json_of_message(m) {
                                    lemma_msg_branch_chars(s@, m);
                                    match m {
                                Message::SyncRequest { from: f0 } => {
                                lemma_msg_layout_sync_request(s@, f0@);
                                lemma_string_pin(s@, 30, f0@, from@, p2 as int);
                                },
                                Message::SyncResponse { chain: c0 } => {
                                lemma_msg_layout_sync_response(s@, c0.deep_view());
                                assert(s@[16] == s@.subrange(0, 30)[16]);
                                },
                                Message::NewBlock { block: b0 } => {
                                lemma_msg_layout_new_block(s@, b0@);
                                assert(s@[9] == s@.subrange(0, 30)[9]);
                                },
                                Message::NewTransaction { transaction: t0 } => {
                                lemma_msg_layout_new_transaction(s@, t0);
                                assert(s@[9] == s@.subrange(0, 30)[9]);
                                },
                                    }
                                    assert(false);
                                }
                            }
                        }
                        return None;
                    },
                }
            },
            None => {
                proof {
                    assert forall|m: Message| !(message_json_wf(m) && s@ == json_of_message(m)) by {
                        if message_json_wf(m) && s@ == json_of_message(m) {
                            lemma_msg_branch_chars(s@, m);
                            match m {
                        Message::SyncRequest { from: f0 } => {
                        lemma_msg_layout_sync_request(s@, f0@);
                        lemma_string_scan_ready(s@, 30, f0@);
                        },
                        Message::SyncResponse { chain: c0 } => {
                        lemma_msg_layout_sync_response(s@, c0.deep_view());
                        assert(s@[16] == s@.subrange(0, 30)[16]);
                        },
                        Message::NewBlock { block: b0 } => {
                        lemma_msg_layout_new_block(s@, b0@);
                        assert(s@[9] == s@.subrange(0, 30)[9]);
                        },
                        Message::NewTransaction { transaction: t0 } => {
                        lemma_msg_layout_new_transaction(s@, t0);
                        assert(s@[9] == s@.subrange(0, 30)[9]);
                        },
                            }
                            assert(false);
                        }
                    }
                }
                return None;
            },
        }
    }
    if let Some(p) = skip_expect(s, 0, "{\"type\":\"SYNC_RESPONSE\",\"chain\":[") {
        let r1 = scan_block_list(s, p);
        match r1 {
            Some((chain, p2)) => {
                let r2 = skip_expect(s, p2, "]}");
                match r2 {
                    Some(p3) => {
                        if p3 == slen {
                            let m = Message::SyncResponse { chain };
                            proof {
                                assert(s@ =~= s@.subrange(0, 33) + s@.subrange(33, p2 as int) + s@.subrange(p2 as int, p3 as int));
                                assert(s@ == json_of_message(m));
                            }
                            return Some(m);
                        }
                        proof {
                            assert forall|m: Message| !(message_json_wf(m) && s@ == json_of_message(m)) by {
                                if message_json_wf(m) && s@ == json_of_message(m) {
                                    lemma_msg_branch_chars(s@, m);
                                    match m {
                                Message::SyncRequest { from: f0 } => {
                                lemma_msg_layout_sync_request(s@, f0@);
                                },
                                Message::SyncResponse { chain: c0 } => {
                                lemma_msg_layout_sync_response(s@, c0.deep_view());
                                },
                                Message::NewBlock { block: b0 } => {
                                lemma_msg_layout_new_block(s@, b0@);
                                assert(s@[9] == s@.subrange(0, 33)[9]);
                                },
                                Message::NewTransaction { transaction: t0 } => {
                                lemma_msg_layout_new_transaction(s@, t0);
                                assert(s@[9] == s@.subrange(0, 33)[9]);
                                },
                                    }
                                    assert(false);
                                }
                            }
                        }
                        return None;
                    },
                    None => {
                        proof {
                            assert forall|m: Message| !(message_json_wf(m) && s@ == json_of_message(m)) by {
                                if message_json_wf(m) && s@ == json_of_message(m) {
                                    lemma_msg_branch_chars(s@, m);
                                    match m {
                                Message::SyncRequest { from: f0 } => {
                                lemma_msg_layout_sync_request(s@, f0@);
                                },
                                Message::SyncResponse { chain: c0 } => {
                                lemma_msg_layout_sync_response(s@, c0.deep_view());
                                },
                                Message::NewBlock { block: b0 } => {
                                lemma_msg_layout_new_block(s@, b0@);
                                assert(s@[9] == s@.subrange(0, 33)[9]);
                                },
                                Message::NewTransaction { transaction: t0 } => {
                                lemma_msg_layout_new_transaction(s@, t0);
                                assert(s@[9] == s@.subrange(0, 33)[9]);
                                },
                                    }
                                    assert(false);
                                }
                            }
                        }
                        return None;
                    },
                }
            },
            None => {
                proof {
                    assert forall|m: Message| !(message_json_wf(m) && s@ == json_of_message(m)) by {
                        if message_json_wf(m) && s@ == json_of_message(m) {
                            lemma_msg_branch_chars(s@, m);
                            match m {
                        Message::SyncRequest { from: f0 } => {
                        lemma_msg_layout_sync_request(s@, f0@);
                        },
                        Message::SyncResponse { chain: c0 } => {
                        lemma_msg_layout_sync_response(s@, c0.deep_view());
                        },
                        Message::NewBlock { block: b0 } => {
                        lemma_msg_layout_new_block(s@, b0@);
                        assert(s@[9] == s@.subrange(0, 33)[9]);
                        },
                        Message::NewTransaction { transaction: t0 } => {
                        lemma_msg_layout_new_transaction(s@, t0);
                        assert(s@[9] == s@.subrange(0, 33)[9]);
                        },
                            }
                            assert(false);
                        }
                    }
                }
                return None;
            },
        }
    }
    if let Some(p) = skip_expect(s, 0, "{\"type\":\"NEW_BLOCK\",\"block\":") {
        let r1 = scan_block(s, p);
        match r1 {
            Some((block, p2)) => {
                let r2 = skip_expect(s, p2, "}");
                match r2 {
                    Some(p3) => {
                        if p3 == slen {
                            let m = Message::NewBlock { block };
                            proof {
                                assert(s@ =~= s@.subrange(0, 28) + s@.subrange(28, p2 as int) + s@.subrange(p2 as int, p3 as int));
                                assert(s@ == json_of_message(m));
                            }
                            return Some(m);
                        }
                        proof {
                            assert forall|m: Message| !(message_json_wf(m) && s@ == json_of_message(m)) by {
                                if message_json_wf(m) && s@ == json_of_message(m) {
                                    lemma_msg_branch_chars(s@, m);
                                    match m {
                                Message::SyncRequest { from: f0 } => {
                                lemma_msg_layout_sync_request(s@, f0@);
                                },
                                Message::SyncResponse { chain: c0 } => {
                                lemma_msg_layout_sync_response(s@, c0.deep_view());
                                },
                                Message::NewBlock { block: b0 } => {
                                lemma_msg_layout_new_block(s@, b0@);
                                },
                                Message::NewTransaction { transaction: t0 } => {
                                lemma_msg_layout_new_transaction(s@, t0);
                                assert(s@[13] == s@.subrange(0, 28)[13]);
                                },
                                    }
                                    assert(false);
                                }
                            }
                        }
                        return None;
                    },
                    None => {
                        proof {
                            assert forall|m: Message| !(message_json_wf(m) && s@ == json_of_message(m)) by {
                                if message_json_wf(m) && s@ == json_of_message(m) {
                                    lemma_msg_branch_chars(s@, m);
                                    match m {
                                Message::SyncRequest { from: f0 } => {
                                lemma_msg_layout_sync_request(s@, f0@);
                                },
                                Message::SyncResponse { chain: c0 } => {
                                lemma_msg_layout_sync_response(s@, c0.deep_view());
                                },
                                Message::NewBlock { block: b0 } => {
                                lemma_msg_layout_new_block(s@, b0@);
                                },
                                Message::NewTransaction { transaction: t0 } => {
                                lemma_msg_layout_new_transaction(s@, t0);
                                assert(s@[13] == s@.subrange(0, 28)[13]);
                                },
                                    }
                                    assert(false);
                                }
                            }
                        }
                        return None;
                    },
                }
            },
            None => {
                proof {
                    assert forall|m: Message| !(message_json_wf(m) && s@ == json_of_message(m)) by {
                        if message_json_wf(m) && s@ == json_of_message(m) {
                            lemma_msg_branch_chars(s@, m);
                            match m {
                        Message::SyncRequest { from: f0 } => {
                        lemma_msg_layout_sync_request(s@, f0@);
                        },
                        Message::SyncResponse { chain: c0 } => {
                        lemma_msg_layout_sync_response(s@, c0.deep_view());
                        },
                        Message::NewBlock { block: b0 } => {
                        lemma_msg_layout_new_block(s@, b0@);
                        },
                        Message::NewTransaction { transaction: t0 } => {
                        lemma_msg_layout_new_transaction(s@, t0);
                        assert(s@[13] == s@.subrange(0, 28)[13]);
                        },
                            }
                            assert(false);
                        }
                    }
                }
                return None;
            },
        }
    }
    if let Some(p) = skip_expect(s, 0, "{\"type\":\"NEW_TRANSACTION\",\"transaction\":") {
        let r1 = scan_tx(s, p);
        match r1 {
            Some((transaction, p2)) => {
                let r2 = skip_expect(s, p2, "}");
                match r2 {
                    Some(p3) => {
                        if p3 == slen {
                            let m = Message::NewTransaction { transaction };
                            proof {
                                assert(s@ =~= s@.subrange(0, 40) + s@.subrange(40, p2 as int) + s@.subrange(p2 as int, p3 as int));
                                assert(s@ == json_of_message(m));
                            }
                            return Some(m);
                        }
                        proof {
                            assert forall|m: Message| !(message_json_wf(m) && s@ == json_of_message(m)) by {
                                if message_json_wf(m) && s@ == json_of_message(m) {
                                    lemma_msg_branch_chars(s@, m);
                                    match m {
                                Message::SyncRequest { from: f0 } => {
                                lemma_msg_layout_sync_request(s@, f0@);
                                },
                                Message::SyncResponse { chain: c0 } => {
                                lemma_msg_layout_sync_response(s@, c0.deep_view());
                                },
                                Message::NewBlock { block: b0 } => {
                                lemma_msg_layout_new_block(s@, b0@);
                                },
                                Message::NewTransaction { transaction: t0 } => {
                                lemma_msg_layout_new_transaction(s@, t0);
                                },
                                    }
                                    assert(false);
                                }
                            }
                        }
                        return None;
                    },
                    None => {
                        proof {
                            assert forall|m: Message| !(message_json_wf(m) && s@ == json_of_message(m)) by {
                                if message_json_wf(m) && s@ == json_of_message(m) {
                                    lemma_msg_branch_chars(s@, m);
                                    match m {
                                Message::SyncRequest { from: f0 } => {
                                lemma_msg_layout_sync_request(s@, f0@);
                                },
                                Message::SyncResponse { chain: c0 } => {
                                lemma_msg_layout_sync_response(s@, c0.deep_view());
                                },
                                Message::NewBlock { block: b0 } => {
                                lemma_msg_layout_new_block(s@, b0@);
                                },
                                Message::NewTransaction { transaction: t0 } => {
                                lemma_msg_layout_new_transaction(s@, t0);
                                },
                                    }
                                    assert(false);
                                }
                            }
                        }
                        return None;
                    },
                }
            },
            None => {
                proof {
                    assert forall|m: Message| !(message_json_wf(m) && s@ == json_of_message(m)) by {
                        if message_json_wf(m) && s@ == json_of_message(m) {
                            lemma_msg_branch_chars(s@, m);
                            match m {
                        Message::SyncRequest { from: f0 } => {
                        lemma_msg_layout_sync_request(s@, f0@);
                        },
                        Message::SyncResponse { chain: c0 } => {
                        lemma_msg_layout_sync_response(s@, c0.deep_view());
                        },
                        Message::NewBlock { block: b0 } => {
                        lemma_msg_layout_new_block(s@, b0@);
                        },
                        Message::NewTransaction { transaction: t0 } => {
                        lemma_msg_layout_new_transaction(s@, t0);
                        },
                            }
                            assert(false);
                        }
                    }
                }
                return None;
            },
        }
    }
    proof {
        assert forall|m: Message| !(message_json_wf(m) && s@ == json_of_message(m)) by {
            if message_json_wf(m) && s@ == json_of_message(m) {
                match m {
                    Message::SyncRequest { from } => {
                        lemma_msg_layout_sync_request(s@, from@);
                    },
                    Message::SyncResponse { chain } => {
                        lemma_msg_layout_sync_response(s@, chain.deep_view());
                    },
                    Message::NewBlock { block } => {
                        lemma_msg_layout_new_block(s@, block@);
                    },
                    Message::NewTransaction { transaction } => {
                        lemma_msg_layout_new_transaction(s@, transaction);
                    },
                }
                assert(false);
            }
        }
    }
    None
}

} // verus!
