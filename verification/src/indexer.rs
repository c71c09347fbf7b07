//! The file indexer: turning one source file into embeddable documents.
//!
//! A collaborator parses the file with a grammar-driven structural
//! query and hands the library the raw match data: for every match a
//! list of captures, each a capture index with a character range into
//! the file's content. The indexer turns that data into `Document`s:
//! it keeps every match that captured both an item and a name, takes
//! the item's start as the document offset, prefixes the name with the
//! optional context capture, and records the item's text as the span
//! that will actually be embedded.

use vstd::prelude::*;
use vstd::string::*;

verus! {

/// One extracted code fragment: its byte offset in the file, a short
/// display name, and its embedding vector (empty until the embedding
/// stage fills it).
pub struct Document {
    pub offset: usize,
    pub name: String,
    pub embedding: Vec<i32>,
}

/// One indexed file: its worktree-relative path, the modification time
/// observed when the content was read, and its extracted documents.
pub struct IndexedFile {
    pub path: String,
    pub mtime: u64,
    pub documents: Vec<Document>,
}

/// One capture of a structural-query match: which capture slot it
/// fills and the character range it covers in the file's content.
#[derive(Clone, Copy)]
pub struct Capture {
    pub index: u32,
    pub start: usize,
    pub end: usize,
}

/// One structural-query match: its captures, in match order.
pub struct StructuralMatch {
    pub captures: Vec<Capture>,
}

/// A language's embedding configuration: which capture slots hold the
/// fragment body, its name, and the optional enclosing context.
pub struct EmbeddingConfig {
    pub item_capture_ix: u32,
    pub name_capture_ix: u32,
    pub context_capture_ix: Option<u32>,
}

/// The range of the last capture filling slot `ix`, if any. A later
/// capture of the same slot overrides an earlier one.
pub open spec fn last_capture_range(caps: Seq<Capture>, ix: u32) -> Option<(usize, usize)>
    decreases caps.len(),
{
    if caps.len() == 0 {
        None
    } else if caps.last().index == ix {
        Some((caps.last().start, caps.last().end))
    } else {
        last_capture_range(caps.drop_last(), ix)
    }
}

/// Is `r` a well-formed character range into content of length `len`?
pub open spec fn valid_range(r: (usize, usize), len: nat) -> bool {
    r.0 <= r.1 <= len
}

/// The context range of a match: the last capture of the configured
/// context slot, if the configuration has one.
pub open spec fn context_range_of(cfg: EmbeddingConfig, caps: Seq<Capture>) -> Option<
    (usize, usize),
> {
    match cfg.context_capture_ix {
        Some(ix) => last_capture_range(caps, ix),
        None => None,
    }
}

/// What one match contributes: `(offset, name, span)` where `offset`
/// is the item's start, `name` is the context text (empty if the
/// context capture is missing or out of range), a space, and the name
/// text, and `span` is the item's text — the text that is embedded. A
/// match missing the item or name capture, or whose item or name range
/// does not fit the content, contributes nothing.
pub open spec fn match_extract(
    cfg: EmbeddingConfig,
    content: Seq<char>,
    m: StructuralMatch,
) -> Option<(usize, Seq<char>, Seq<char>)> {
    let item = last_capture_range(m.captures@, cfg.item_capture_ix);
    let name = last_capture_range(m.captures@, cfg.name_capture_ix);
    if item is Some && name is Some && valid_range(item->0, content.len()) && valid_range(
        name->0,
        content.len(),
    ) {
        let ir = item->0;
        let nr = name->0;
        let ctx = context_range_of(cfg, m.captures@);
        let ctx_text = if ctx is Some && valid_range(ctx->0, content.len()) {
            let cr = ctx->0;
            content.subrange(cr.0 as int, cr.1 as int)
        } else {
            Seq::empty()
        };
        Some(
            (
                ir.0,
                ctx_text + seq![' '] + content.subrange(nr.0 as int, nr.1 as int),
                content.subrange(ir.0 as int, ir.1 as int),
            ),
        )
    } else {
        None
    }
}

/// Everything a list of matches contributes, in match order.
pub open spec fn extracted(
    cfg: EmbeddingConfig,
    content: Seq<char>,
    ms: Seq<StructuralMatch>,
) -> Seq<(usize, Seq<char>, Seq<char>)>
    decreases ms.len(),
{
    if ms.len() == 0 {
        Seq::empty()
    } else {
        let rest = extracted(cfg, content, ms.drop_last());
        match match_extract(cfg, content, ms.last()) {
            Some(t) => rest.push(t),
            None => rest,
        }
    }
}

/// Turns one source file into its indexed form: every match that
/// captured both an item and a name becomes a `Document` (offset at
/// the item's start, name prefixed by the optional context, embedding
/// left empty) and, in parallel, the item's text becomes the span that
/// the embedding stage will embed.
pub fn index_file(
    cfg: &EmbeddingConfig,
    relative_path: String,
    mtime: u64,
    content: &String,
    matches: &Vec<StructuralMatch>,
) -> (r: (IndexedFile, Vec<String>))
    ensures
        r.0.path == relative_path,
        r.0.mtime == mtime,
        r.0.documents@.len() == extracted(*cfg, content@, matches@).len(),
        r.1@.len() == extracted(*cfg, content@, matches@).len(),
        forall|i: int|
            0 <= i < r.0.documents@.len() ==> {
                let t = extracted(*cfg, content@, matches@)[i];
                &&& (#[trigger] r.0.documents@[i]).offset == t.0
                &&& r.0.documents@[i].name@ == t.1
                &&& r.0.documents@[i].embedding@.len() == 0
                &&& r.1@[i]@ == t.2
            },
{
    let content_str: &str = content.as_str();
    let content_len: usize = content_str.unicode_len();
    let mut documents: Vec<Document> = Vec::new();
    let mut spans: Vec<String> = Vec::new();
    let n: usize = matches.len();
    let mut i: usize = 0;
    proof {
        assert(matches@.take(0) =~= Seq::<StructuralMatch>::empty());
    }
    while i < n
        invariant
            n == matches@.len(),
            i <= n,
            content_len == content@.len(),
            content_str@ == content@,
            documents@.len() == extracted(*cfg, content@, matches@.take(i as int)).len(),
            spans@.len() == documents@.len(),
            forall|k: int|
                0 <= k < documents@.len() ==> {
                    let t = extracted(*cfg, content@, matches@.take(i as int))[k];
                    &&& (#[trigger] documents@[k]).offset == t.0
                    &&& documents@[k].name@ == t.1
                    &&& documents@[k].embedding@.len() == 0
                    &&& spans@[k]@ == t.2
                },
        decreases n - i,
    {
        proof {
            assert(matches@.take(i + 1).drop_last() =~= matches@.take(i as int));
            assert(matches@.take(i + 1).last() == matches@[i as int]);
        }
        let m: &StructuralMatch = &matches[i];
        let mut item_range: Option<(usize, usize)> = None;
        let mut name_range: Option<(usize, usize)> = None;
        let mut context_range: Option<(usize, usize)> = None;
        let cn: usize = m.captures.len();
        let mut j: usize = 0;
        proof {
            assert(m.captures@.take(0) =~= Seq::<Capture>::empty());
        }
        while j < cn
            invariant
                cn == m.captures@.len(),
                j <= cn,
                item_range == last_capture_range(m.captures@.take(j as int), cfg.item_capture_ix),
                name_range == last_capture_range(m.captures@.take(j as int), cfg.name_capture_ix),
                context_range == context_range_of(*cfg, m.captures@.take(j as int)),
            decreases cn - j,
        {
            proof {
                assert(m.captures@.take(j + 1).drop_last() =~= m.captures@.take(j as int));
                assert(m.captures@.take(j + 1).last() == m.captures@[j as int]);
            }
            let c: Capture = m.captures[j];
            if c.index == cfg.item_capture_ix {
                item_range = Some((c.start, c.end));
            }
            if c.index == cfg.name_capture_ix {
                name_range = Some((c.start, c.end));
            }
            if let Some(context_ix) = cfg.context_capture_ix {
                if c.index == context_ix {
                    context_range = Some((c.start, c.end));
                }
            }
            j = j + 1;
        }
        proof {
            assert(m.captures@.take(cn as int) =~= m.captures@);
        }
        if let (Some(item), Some(name)) = (item_range, name_range) {
            if item.0 <= item.1 && item.1 <= content_len && name.0 <= name.1 && name.1
                <= content_len {
                let ghost ctx_text: Seq<char> = match context_range_of(*cfg, m.captures@) {
                    Some(cr) => {
                        if cr.0 <= cr.1 <= content@.len() {
                            content@.subrange(cr.0 as int, cr.1 as int)
                        } else {
                            Seq::empty()
                        }
                    },
                    None => Seq::empty(),
                };
                let mut name_text = String::new();
                if let Some(ctx) = context_range {
                    if ctx.0 <= ctx.1 && ctx.1 <= content_len {
                        name_text.append(content_str.substring_char(ctx.0, ctx.1));
                    }
                }
                proof {
                    assert(name_text@ =~= ctx_text);
                }
                name_text.append(" ");
                proof {
                    reveal_strlit(" ");
                    assert(" "@ =~= seq![' ']);
                }
                name_text.append(content_str.substring_char(name.0, name.1));
                let span: String = content_str.substring_char(item.0, item.1).to_owned();
                let ghost docs0 = documents@;
                let ghost spans0 = spans@;
                let ghost t = (
                    item.0,
                    ctx_text + seq![' '] + content@.subrange(name.0 as int, name.1 as int),
                    content@.subrange(item.0 as int, item.1 as int),
                );
                proof {
                    assert(match_extract(*cfg, content@, matches@[i as int]) == Some(t));
                    assert(name_text@ =~= t.1);
                    assert(extracted(*cfg, content@, matches@.take(i + 1)) == extracted(
                        *cfg,
                        content@,
                        matches@.take(i as int),
                    ).push(t));
                }
                documents.push(
                    Document { offset: item.0, name: name_text, embedding: Vec::new() },
                );
                spans.push(span);
                proof {
                    let e = extracted(*cfg, content@, matches@.take(i + 1));
                    assert forall|k: int| 0 <= k < documents@.len() implies {
                        let t2 = e[k];
                        &&& (#[trigger] documents@[k]).offset == t2.0
                        &&& documents@[k].name@ == t2.1
                        &&& documents@[k].embedding@.len() == 0
                        &&& spans@[k]@ == t2.2
                    } by {
                        if k < docs0.len() {
                            assert(documents@[k] == docs0[k]);
                            assert(spans@[k] == spans0[k]);
                            assert(e[k] == extracted(*cfg, content@, matches@.take(i as int))[k]);
                        } else {
                            assert(e[k] == t);
                        }
                    }
                }
            }
        }
        i = i + 1;
    }
    proof {
        assert(matches@.take(n as int) =~= matches@);
    }
    (IndexedFile { path: relative_path, mtime, documents }, spans)
}

} // verus!
