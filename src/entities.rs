use vstd::prelude::*;

verus! {

/// A chunk as the contracts see it: its type, first index and last index.
pub type ChunkView = (Seq<char>, int, int);

/// Index of the first `-` in `s` at or after `i`, or `s.len()` when there is none.
pub open spec fn dash_from(s: Seq<char>, i: int) -> int
    decreases s.len() - i,
{
    if i >= s.len() {
        s.len() as int
    } else if s[i] == '-' {
        i
    } else {
        dash_from(s, i + 1)
    }
}

/// The tag part of a label: everything before the first `-`.
pub open spec fn tag_part(s: Seq<char>) -> Seq<char> {
    s.subrange(0, dash_from(s, 0))
}

/// The type part of a label: everything after the first `-`, or `_` when it has no `-`.
pub open spec fn type_part(s: Seq<char>) -> Seq<char> {
    let d = dash_from(s, 0);
    if d >= s.len() {
        seq!['_']
    } else {
        s.subrange(d + 1, s.len() as int)
    }
}

pub open spec fn tag_is(s: Seq<char>, c: char) -> bool {
    s == seq![c]
}

/// A chunk begins at the current position.
pub open spec fn chunk_starts(prev_tag: Seq<char>, tag: Seq<char>, prev_type: Seq<char>, ty: Seq<char>) -> bool {
    ||| tag_is(tag, 'B')
    ||| tag_is(tag, 'S')
    ||| (tag_is(prev_tag, 'E') || tag_is(prev_tag, 'S') || tag_is(prev_tag, 'O')) && (tag_is(tag, 'E') || tag_is(tag, 'I'))
    ||| !tag_is(tag, 'O') && !tag_is(tag, '.') && prev_type != ty
}

/// The chunk that reached the previous position closes there.
pub open spec fn chunk_ends(prev_tag: Seq<char>, tag: Seq<char>, prev_type: Seq<char>, ty: Seq<char>) -> bool {
    ||| tag_is(prev_tag, 'E')
    ||| tag_is(prev_tag, 'S')
    ||| (tag_is(prev_tag, 'B') || tag_is(prev_tag, 'I')) && (tag_is(tag, 'B') || tag_is(tag, 'S') || tag_is(tag, 'O'))
    ||| !tag_is(prev_tag, 'O') && !tag_is(prev_tag, '.') && prev_type != ty
}

/// What the scan carries from one position to the next.
pub struct ScanState {
    pub prev_tag: Seq<char>,
    pub prev_type: Seq<char>,
    pub begin: int,
    pub chunks: Seq<ChunkView>,
}

/// The scan after the first `n` labels of `labels`.
pub open spec fn scan(labels: Seq<Seq<char>>, n: int) -> ScanState
    decreases n,
{
    if n <= 0 {
        ScanState { prev_tag: seq!['O'], prev_type: seq!['_'], begin: 0, chunks: seq![] }
    } else {
        let st = scan(labels, n - 1);
        let i = n - 1;
        let tag = tag_part(labels[i]);
        let ty = type_part(labels[i]);
        ScanState {
            prev_tag: tag,
            prev_type: ty,
            begin: if chunk_starts(st.prev_tag, tag, st.prev_type, ty) { i } else { st.begin },
            chunks: if chunk_ends(st.prev_tag, tag, st.prev_type, ty) {
                st.chunks.push((st.prev_type, st.begin, i - 1))
            } else {
                st.chunks
            },
        }
    }
}

/// The chunks of a label sequence, closed by a trailing `O`.
pub open spec fn entities(labels: Seq<Seq<char>>) -> Seq<ChunkView> {
    let ext = labels.push(seq!['O']);
    scan(ext, ext.len() as int).chunks
}

pub open spec fn labels_view(v: Seq<&str>) -> Seq<Seq<char>> {
    v.map_values(|s: &str| s@)
}

pub open spec fn chunks_view(v: Seq<(&str, usize, usize)>) -> Seq<ChunkView> {
    v.map_values(|c: (&str, usize, usize)| (c.0@, c.1 as int, c.2 as int))
}

/// Whether `tag` is the one-character tag `c`.
fn is_tag(tag: &str, c: char) -> (r: bool)
    ensures
        r == tag_is(tag@, c),
{
    if tag.unicode_len() != 1 {
        return false;
    }
    let first = tag.get_char(0);
    if first == c {
        assert(tag@ =~= seq![c]);
        true
    } else {
        false
    }
}

pub(crate) fn same_str(a: &str, b: &str) -> (r: bool)
    ensures
        r == (a@ == b@),
{
    let n = a.unicode_len();
    if n != b.unicode_len() {
        return false;
    }
    let mut k: usize = 0;
    while k < n
        invariant
            n == a@.len(),
            n == b@.len(),
            k <= n,
            forall|m: int| 0 <= m < k ==> a@[m] == b@[m],
        decreases n - k,
    {
        if a.get_char(k) != b.get_char(k) {
            return false;
        }
        k = k + 1;
    }
    assert(a@ =~= b@);
    true
}

fn start_of_chunk(prev_tag: &str, tag: &str, prev_type: &str, type_: &str) -> (r: bool)
    ensures
        r == chunk_starts(prev_tag@, tag@, prev_type@, type_@),
{
    if is_tag(tag, 'B') {
        return true;
    }
    if is_tag(tag, 'S') {
        return true;
    }
    if is_tag(prev_tag, 'E') && is_tag(tag, 'E') {
        return true;
    }
    if is_tag(prev_tag, 'E') && is_tag(tag, 'I') {
        return true;
    }
    if is_tag(prev_tag, 'S') && is_tag(tag, 'E') {
        return true;
    }
    if is_tag(prev_tag, 'S') && is_tag(tag, 'I') {
        return true;
    }
    if is_tag(prev_tag, 'O') && is_tag(tag, 'E') {
        return true;
    }
    if is_tag(prev_tag, 'O') && is_tag(tag, 'I') {
        return true;
    }
    if !is_tag(tag, 'O') && !is_tag(tag, '.') && !same_str(prev_type, type_) {
        return true;
    }
    false
}

fn end_of_chunk(prev_tag: &str, tag: &str, prev_type: &str, type_: &str) -> (r: bool)
    ensures
        r == chunk_ends(prev_tag@, tag@, prev_type@, type_@),
{
    if is_tag(prev_tag, 'E') {
        return true;
    }
    if is_tag(prev_tag, 'S') {
        return true;
    }
    if is_tag(prev_tag, 'B') && is_tag(tag, 'B') {
        return true;
    }
    if is_tag(prev_tag, 'B') && is_tag(tag, 'S') {
        return true;
    }
    if is_tag(prev_tag, 'B') && is_tag(tag, 'O') {
        return true;
    }
    if is_tag(prev_tag, 'I') && is_tag(tag, 'B') {
        return true;
    }
    if is_tag(prev_tag, 'I') && is_tag(tag, 'S') {
        return true;
    }
    if is_tag(prev_tag, 'I') && is_tag(tag, 'O') {
        return true;
    }
    if !is_tag(prev_tag, 'O') && !is_tag(prev_tag, '.') && !same_str(prev_type, type_) {
        return true;
    }
    false
}

/// Splits a label at its first `-` into tag and type; a label without `-` has type `_`.
fn split_label<'a>(label: &'a str) -> (r: (&'a str, &'a str))
    ensures
        r.0@ == tag_part(label@),
        r.1@ == type_part(label@),
{
    let n = label.unicode_len();
    let mut cut: usize = 0;
    while cut < n && label.get_char(cut) != '-'
        invariant
            n == label@.len(),
            cut <= n,
            dash_from(label@, 0) == dash_from(label@, cut as int),
        decreases n - cut,
    {
        cut = cut + 1;
    }
    if cut == n {
        let underscore = "_";
        proof {
            reveal_strlit("_");
        }
        (label.substring_char(0, n), underscore)
    } else {
        (label.substring_char(0, cut), label.substring_char(cut + 1, n))
    }
}

proof fn lemma_scan_prefix(labels: Seq<Seq<char>>, x: Seq<char>, n: int)
    requires
        0 <= n <= labels.len(),
    ensures
        scan(labels.push(x), n) == scan(labels, n),
    decreases n,
{
    if n > 0 {
        lemma_scan_prefix(labels, x, n - 1);
        assert(labels.push(x)[n - 1] == labels[n - 1]);
    }
}

/// Decodes a BIO/BIOES label sequence into typed chunks `(type, first, last)`.
/// A trailing `O` closes whatever chunk is still open.
pub fn get_entities<'a>(seq: Vec<&'a str>) -> (r: Vec<(&'a str, usize, usize)>)
    ensures
        chunks_view(r@) == entities(labels_view(seq@)),
{
    let ghost labels = labels_view(seq@);
    proof {
        reveal_strlit("O");
        reveal_strlit("_");
    }
    let mut prev_tag: &'a str = "O";
    let mut prev_type: &'a str = "_";
    let mut begin_offset: usize = 0;
    let mut chunks: Vec<(&'a str, usize, usize)> = Vec::new();
    assert(prev_tag@ =~= seq!['O']);
    assert(prev_type@ =~= seq!['_']);
    let ghost o = seq!['O'];
    assert(o[0] == 'O');
    assert(!tag_is(o, 'B') && !tag_is(o, 'I') && !tag_is(o, 'E') && !tag_is(o, 'S'));

    let n = seq.len();
    let mut i: usize = 0;
    while i < n
        invariant
            n == seq@.len(),
            labels == labels_view(seq@),
            i <= n,
            prev_tag@ == scan(labels, i as int).prev_tag,
            prev_type@ == scan(labels, i as int).prev_type,
            begin_offset as int == scan(labels, i as int).begin,
            chunks_view(chunks@) == scan(labels, i as int).chunks,
            begin_offset <= i,
            i == 0 ==> tag_is(prev_tag@, 'O'),
            o == seq!['O'],
            !tag_is(o, 'B') && !tag_is(o, 'I') && !tag_is(o, 'E') && !tag_is(o, 'S'),
        decreases n - i,
    {
        let (tag, type_) = split_label(seq[i]);
        proof {
            if i == 0 {
                assert(prev_tag@ == o);
            }
        }
        if end_of_chunk(prev_tag, tag, prev_type, type_) {
            chunks.push((prev_type, begin_offset, i - 1));
        }
        if start_of_chunk(prev_tag, tag, prev_type, type_) {
            begin_offset = i;
        }
        prev_tag = tag;
        prev_type = type_;
        i = i + 1;
        assert(chunks_view(chunks@) =~= scan(labels, i as int).chunks);
    }
    // the closing `O`, which has no type
    let closing_tag = "O";
    let closing_type = "_";
    assert(closing_tag@ =~= seq!['O']);
    assert(closing_type@ =~= seq!['_']);
    let ghost ext = labels.push(seq!['O']);
    proof {
        lemma_scan_prefix(labels, seq!['O'], n as int);
        assert(ext[n as int] == o);
        assert(dash_from(o, 1) == 1);
        assert(dash_from(o, 0) == 1);
        assert(o.subrange(0, 1) =~= o);
    }
    if end_of_chunk(prev_tag, closing_tag, prev_type, closing_type) {
        assert(n > 0) by {
            if n == 0 {
                assert(prev_tag@ == o);
            }
        }
        chunks.push((prev_type, begin_offset, n - 1));
    }
    assert(chunks_view(chunks@) =~= scan(ext, n + 1).chunks);
    chunks
}

proof fn lemma_scan_all_outside(labels: Seq<Seq<char>>, n: int)
    requires
        0 <= n <= labels.len(),
        forall|k: int| 0 <= k < labels.len() ==> #[trigger] labels[k] == seq!['O'],
    ensures
        scan(labels, n).prev_tag == seq!['O'],
        scan(labels, n).prev_type == seq!['_'],
        scan(labels, n).chunks.len() == 0,
    decreases n,
{
    let o = seq!['O'];
    assert(o[0] == 'O');
    assert(dash_from(o, 1) == 1);
    assert(dash_from(o, 0) == 1);
    assert(o.subrange(0, 1) =~= o);
    if n > 0 {
        lemma_scan_all_outside(labels, n - 1);
        assert(labels[n - 1] == o);
    }
}

/// A sequence of `O` labels only, of any length, has no chunks.
pub proof fn lemma_all_outside_no_chunks(labels: Seq<Seq<char>>)
    requires
        forall|k: int| 0 <= k < labels.len() ==> #[trigger] labels[k] == seq!['O'],
    ensures
        entities(labels).len() == 0,
{
    let ext = labels.push(seq!['O']);
    assert forall|k: int| 0 <= k < ext.len() implies #[trigger] ext[k] == seq!['O'] by {
        if k < labels.len() {
            assert(ext[k] == labels[k]);
        }
    }
    lemma_scan_all_outside(ext, ext.len() as int);
}

} // verus!
