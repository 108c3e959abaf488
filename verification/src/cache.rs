//! The content-addressed cache: the recursive input fingerprint that keys
//! it, and an in-memory store of generation results by fingerprint.
//! Persisting entries on disk is the surrounding program's concern; it
//! loads them into this store and writes new ones back out.

use vstd::prelude::*;
use sha2::Digest;
use vstd::utf8::encode_utf8;
use crate::numfmt::dec_digits;
use crate::sorting::{
    lemma_pair_leq_total_ordering, pair_leq, pair_views, sort_pairs,
};
use crate::textutil::str_eq;

verus! {

/// The hex digest that a SHA-256 run over the given bytes produces. The
/// digest depends on the bytes alone.
pub uninterp spec fn sha256_hex_of(bytes: Seq<u8>) -> Seq<char>;

/// Relies on sha2::Sha256: one digest over the whole input, written as 64
/// lowercase hex characters.
#[verifier::external_body]
fn sha256_hex(data: &Vec<u8>) -> (r: String)
    ensures
        r@ == sha256_hex_of(data@),
        r@.len() == 64,
{
    let digest = sha2::Sha256::digest(data.as_slice());
    format!("{:x}", digest)
}

/// One cached generation result: the fingerprint it is stored under, the
/// produced files as (output path, content) pairs, and the token counts of
/// the model call that produced them.
#[derive(Debug)]
pub struct CachedGeneration {
    pub input_hash: String,
    pub files: Vec<(String, String)>,
    pub tokens_in: u64,
    pub tokens_out: u64,
}

/// Two cached entries agree on everything observable.
pub open spec fn entry_matches(a: CachedGeneration, b: CachedGeneration) -> bool {
    &&& a.input_hash@ == b.input_hash@
    &&& pair_views(a.files@) == pair_views(b.files@)
    &&& a.tokens_in == b.tokens_in
    &&& a.tokens_out == b.tokens_out
}

// ---------- Fingerprint ----------

/// The canonical (path, fingerprint) listing of the imports: sorted by
/// path, ties by fingerprint. Sorting is the determinism primitive: any
/// two enumerations of the same imports canonicalize identically.
pub open spec fn canon_imports(imports: Seq<(Seq<char>, Seq<char>)>) -> Seq<(Seq<char>, Seq<char>)> {
    imports.sort_by(pair_leq())
}

/// One line per canonical import: `<path>:<fingerprint>\n`.
pub open spec fn imports_lines(sorted: Seq<(Seq<char>, Seq<char>)>) -> Seq<char>
    decreases sorted.len(),
{
    if sorted.len() == 0 {
        Seq::empty()
    } else {
        sorted.first().0 + seq![':'] + sorted.first().1 + seq!['\n'] + imports_lines(
            sorted.drop_first(),
        )
    }
}

/// The version tag, bumped to invalidate every cache when generation
/// semantics change.
pub open spec fn version_tag() -> Seq<char> {
    seq!['l', 'i', 't', '-', 'c', 'a', 'c', 'h', 'e', '-', 'v', '1', '\n']
}

pub open spec fn imports_header() -> Seq<char> {
    seq!['\n', '-', '-', '-', 'i', 'm', 'p', 'o', 'r', 't', 's', '-', '-', '-', '\n']
}

pub open spec fn model_header() -> Seq<char> {
    seq!['-', '-', '-', 'm', 'o', 'd', 'e', 'l', '-', '-', '-', '\n']
}

pub open spec fn lang_header() -> Seq<char> {
    seq!['-', '-', '-', 'l', 'a', 'n', 'g', '-', '-', '-', '\n']
}

pub open spec fn temp_label() -> Seq<char> {
    seq!['t', 'e', 'm', 'p', ':']
}

pub open spec fn seed_label() -> Seq<char> {
    seq!['s', 'e', 'e', 'd', ':']
}

/// The full text whose digest is the fingerprint: version tag, raw prompt
/// text, canonical import lines, model parameters, then language and
/// framework. Every upstream change reaches this text through the imports'
/// fingerprints.
pub open spec fn fingerprint_chars(
    content: Seq<char>,
    imports: Seq<(Seq<char>, Seq<char>)>,
    model: Seq<char>,
    temperature_milli: u32,
    seed: Option<u64>,
    language: Seq<char>,
    framework: Option<Seq<char>>,
) -> Seq<char> {
    version_tag() + content + imports_header() + imports_lines(canon_imports(imports))
        + model_header() + model + seq!['\n'] + temp_label() + dec_digits(
        temperature_milli as nat,
    ) + seq!['\n'] + (match seed {
        Some(s) => seed_label() + dec_digits(s as nat) + seq!['\n'],
        None => Seq::empty(),
    }) + lang_header() + language + seq!['\n'] + (match framework {
        Some(f) => f + seq!['\n'],
        None => Seq::empty(),
    })
}

/// The fingerprint: hex digest of the fingerprint text's UTF-8 bytes.
pub open spec fn spec_fingerprint(
    content: Seq<char>,
    imports: Seq<(Seq<char>, Seq<char>)>,
    model: Seq<char>,
    temperature_milli: u32,
    seed: Option<u64>,
    language: Seq<char>,
    framework: Option<Seq<char>>,
) -> Seq<char> {
    sha256_hex_of(encode_utf8(
        fingerprint_chars(content, imports, model, temperature_milli, seed, language, framework),
    ))
}

/// The framework option's view.
pub open spec fn opt_str_view(o: Option<&String>) -> Option<Seq<char>> {
    match o {
        Some(s) => Some(s@),
        None => None,
    }
}

/// Fingerprints ignore the order in which imports are enumerated: any two
/// listings with the same (path, fingerprint) pairs canonicalize to the
/// same lines, so the digests agree.
pub proof fn lemma_fingerprint_enumeration_independent(
    content: Seq<char>,
    imports1: Seq<(Seq<char>, Seq<char>)>,
    imports2: Seq<(Seq<char>, Seq<char>)>,
    model: Seq<char>,
    temperature_milli: u32,
    seed: Option<u64>,
    language: Seq<char>,
    framework: Option<Seq<char>>,
)
    requires
        imports1.to_multiset() == imports2.to_multiset(),
    ensures
        spec_fingerprint(content, imports1, model, temperature_milli, seed, language, framework)
            == spec_fingerprint(
            content,
            imports2,
            model,
            temperature_milli,
            seed,
            language,
            framework,
        ),
{
    lemma_pair_leq_total_ordering();
    imports1.lemma_sort_by_ensures(pair_leq());
    imports2.lemma_sort_by_ensures(pair_leq());
    vstd::seq_lib::lemma_sorted_unique(
        imports1.sort_by(pair_leq()),
        imports2.sort_by(pair_leq()),
        pair_leq(),
    );
    assert(canon_imports(imports1) == canon_imports(imports2));
}

pub struct Cache {
    cache_dir: String,
    entries: Vec<CachedGeneration>,
}

impl Cache {
    /// The directory this cache mirrors on disk.
    pub closed spec fn dir_view(&self) -> Seq<char> {
        self.cache_dir@
    }

    pub closed spec fn entries_view(&self) -> Seq<CachedGeneration> {
        self.entries@
    }

    /// At most one entry per fingerprint.
    pub closed spec fn inv(&self) -> bool {
        forall|i: int, j: int|
            0 <= i < j < self.entries@.len() ==> self.entries@[i].input_hash@ != self.entries@[
                j
            ].input_hash@
    }

    /// An entry for fingerprint `h` is present.
    pub open spec fn has_entry(&self, h: Seq<char>) -> bool {
        exists|i: int| 0 <= i < self.entries_view().len() && self.entries_view()[i].input_hash@ == h
    }

    /// The entry stored under fingerprint `h`.
    pub open spec fn entry_at(&self, h: Seq<char>) -> CachedGeneration {
        self.entries_view()[choose|i: int|
            0 <= i < self.entries_view().len() && self.entries_view()[i].input_hash@ == h]
    }

    /// A fresh, empty cache for the given directory.
    pub fn new(cache_dir: String) -> (r: Cache)
        ensures
            r.inv(),
            r.dir_view() == cache_dir@,
            forall|h: Seq<char>| !r.has_entry(h),
    {
        let r = Cache { cache_dir, entries: Vec::new() };
        proof {
            assert forall|h: Seq<char>| !r.has_entry(h) by {
                assert(r.entries_view().len() == 0);
            }
        }
        r
    }

    /// Look a generation up by its input fingerprint. Absence is normal:
    /// it means the inputs were never generated (or the entry was lost,
    /// which only costs a fresh model call).
    pub fn get(&self, input_hash: &str) -> (r: Option<&CachedGeneration>)
        requires
            self.inv(),
        ensures
            match r {
                Some(e) => self.has_entry(input_hash@) && entry_matches(
                    *e,
                    self.entry_at(input_hash@),
                ),
                None => !self.has_entry(input_hash@),
            },
    {
        let n: usize = self.entries.len();
        let mut i: usize = 0;
        while i < n
            invariant
                self.inv(),
                n == self.entries_view().len(),
                i <= n,
                forall|k: int| 0 <= k < i ==> self.entries_view()[k].input_hash@ != input_hash@,
            decreases n - i,
        {
            if str_eq(self.entries[i].input_hash.as_str(), input_hash) {
                proof {
                    let w = choose|w: int|
                        0 <= w < self.entries_view().len() && self.entries_view()[w].input_hash@
                            == input_hash@;
                    if w < i as int {
                        assert(self.entries_view()[w].input_hash@ != input_hash@);
                    }
                    if w > i as int {
                        assert(self.entries_view()[i as int].input_hash@ != self.entries_view()[
                            w
                        ].input_hash@);
                    }
                }
                return Some(&self.entries[i]);
            }
            i = i + 1;
        }
        None
    }

    /// Store a generation result, overwriting any entry with the same
    /// fingerprint; entries under other fingerprints are untouched.
    pub fn put(&mut self, entry: CachedGeneration)
        requires
            old(self).inv(),
        ensures
            final(self).inv(),
            final(self).dir_view() == old(self).dir_view(),
            final(self).has_entry(entry.input_hash@),
            entry_matches(final(self).entry_at(entry.input_hash@), entry),
            forall|h: Seq<char>|
                h != entry.input_hash@ ==> (final(self).has_entry(h) <==> old(self).has_entry(h)),
            forall|h: Seq<char>|
                h != entry.input_hash@ && old(self).has_entry(h) ==> final(self).entry_at(h)
                    == old(self).entry_at(h),
    {
        let n: usize = self.entries.len();
        let mut i: usize = 0;
        let ghost entries0: Seq<CachedGeneration> = self.entries@;
        while i < n
            invariant
                self.inv(),
                self.entries@ == entries0,
                entries0 == old(self).entries_view(),
                self.dir_view() == old(self).dir_view(),
                n == self.entries@.len(),
                i <= n,
                forall|k: int| 0 <= k < i ==> self.entries@[k].input_hash@ != entry.input_hash@,
            decreases n - i,
        {
            if str_eq(self.entries[i].input_hash.as_str(), entry.input_hash.as_str()) {
                let ghost before: Seq<CachedGeneration> = self.entries@;
                let ghost h0: Seq<char> = entry.input_hash@;
                self.entries[i] = entry;
                proof {
                    lemma_put_update(before, self.entries@, i as int);
                    assert(self.entries_view()[i as int].input_hash@ == h0);
                    assert(self.has_entry(h0));
                    let w = choose|w: int|
                        0 <= w < self.entries_view().len() && self.entries_view()[w].input_hash@
                            == h0;
                    assert(w == i as int) by {
                        if w != i as int {
                            assert(self.entries_view()[w].input_hash@ != self.entries_view()[
                                i as int
                            ].input_hash@);
                        }
                    }
                    assert(entry_matches(self.entry_at(h0), entry));
                    assert forall|h: Seq<char>| h != h0 implies (self.has_entry(h) <==> old(
                        self,
                    ).has_entry(h)) by {
                        if self.has_entry(h) {
                            let w1 = choose|w1: int|
                                0 <= w1 < self.entries_view().len() && self.entries_view()[
                                    w1
                                ].input_hash@ == h;
                            assert(w1 != i as int);
                            assert(before[w1].input_hash@ == h);
                            assert(old(self).has_entry(h));
                        }
                        if old(self).has_entry(h) {
                            let w2 = choose|w2: int|
                                0 <= w2 < before.len() && before[w2].input_hash@ == h;
                            assert(w2 != i as int);
                            assert(self.entries_view()[w2].input_hash@ == h);
                            assert(self.has_entry(h));
                        }
                    }
                    assert forall|h: Seq<char>| h != h0 && old(self).has_entry(h) implies self
                        .entry_at(h) == old(self).entry_at(h) by {
                        let w2 = choose|w2: int|
                            0 <= w2 < before.len() && before[w2].input_hash@ == h;
                        assert(self.entries_view()[w2].input_hash@ == h);
                        let w1 = choose|w1: int|
                            0 <= w1 < self.entries_view().len() && self.entries_view()[
                                w1
                            ].input_hash@ == h;
                        assert(w1 != i as int);
                        assert(before[w1].input_hash@ == h);
                        if w1 != w2 {
                            if w1 < w2 {
                                assert(before[w1].input_hash@ != before[w2].input_hash@);
                            } else {
                                assert(before[w2].input_hash@ != before[w1].input_hash@);
                            }
                        }
                    }
                }
                return ;
            }
            i = i + 1;
        }
        let ghost before: Seq<CachedGeneration> = self.entries@;
        let ghost h0: Seq<char> = entry.input_hash@;
        self.entries.push(entry);
        proof {
            lemma_put_push(before, self.entries@);
            let last = before.len() as int;
            assert(self.entries_view()[last].input_hash@ == h0);
            assert(self.has_entry(h0));
            let w = choose|w: int|
                0 <= w < self.entries_view().len() && self.entries_view()[w].input_hash@ == h0;
            assert(w == last) by {
                if w != last {
                    assert(before[w].input_hash@ == h0);
                }
            }
            assert(entry_matches(self.entry_at(h0), entry));
            assert forall|h: Seq<char>| h != h0 implies (self.has_entry(h) <==> old(
                self,
            ).has_entry(h)) by {
                if self.has_entry(h) {
                    let w1 = choose|w1: int|
                        0 <= w1 < self.entries_view().len() && self.entries_view()[
                            w1
                        ].input_hash@ == h;
                    assert(w1 != last);
                    assert(before[w1].input_hash@ == h);
                }
                if old(self).has_entry(h) {
                    let w2 = choose|w2: int| 0 <= w2 < before.len() && before[w2].input_hash@ == h;
                    assert(self.entries_view()[w2].input_hash@ == h);
                }
            }
            assert forall|h: Seq<char>| h != h0 && old(self).has_entry(h) implies self.entry_at(
                h,
            ) == old(self).entry_at(h) by {
                let w2 = choose|w2: int| 0 <= w2 < before.len() && before[w2].input_hash@ == h;
                assert(self.entries_view()[w2].input_hash@ == h);
                let w1 = choose|w1: int|
                    0 <= w1 < self.entries_view().len() && self.entries_view()[w1].input_hash@
                        == h;
                assert(w1 != last);
                assert(before[w1].input_hash@ == h);
                if w1 != w2 {
                    if w1 < w2 {
                        assert(before[w1].input_hash@ != before[w2].input_hash@);
                    } else {
                        assert(before[w2].input_hash@ != before[w1].input_hash@);
                    }
                }
            }
        }
    }

    /// Remove the entry under a fingerprint, if any.
    pub fn remove(&mut self, input_hash: &str)
        requires
            old(self).inv(),
        ensures
            final(self).inv(),
            final(self).dir_view() == old(self).dir_view(),
            !final(self).has_entry(input_hash@),
            forall|h: Seq<char>|
                h != input_hash@ ==> (final(self).has_entry(h) <==> old(self).has_entry(h)),
    {
        let n: usize = self.entries.len();
        let mut i: usize = 0;
        let ghost entries0: Seq<CachedGeneration> = self.entries@;
        while i < n
            invariant
                self.inv(),
                self.entries@ == entries0,
                entries0 == old(self).entries_view(),
                self.dir_view() == old(self).dir_view(),
                n == self.entries@.len(),
                i <= n,
                forall|k: int| 0 <= k < i ==> self.entries@[k].input_hash@ != input_hash@,
            decreases n - i,
        {
            if str_eq(self.entries[i].input_hash.as_str(), input_hash) {
                let ghost before: Seq<CachedGeneration> = self.entries@;
                self.entries.remove(i);
                proof {
                    lemma_remove_at(before, self.entries@, i as int, input_hash@);
                    assert(!self.has_entry(input_hash@)) by {
                        if self.has_entry(input_hash@) {
                            let w = choose|w: int|
                                0 <= w < self.entries_view().len() && self.entries_view()[
                                    w
                                ].input_hash@ == input_hash@;
                        }
                    }
                    assert forall|h: Seq<char>| h != input_hash@ implies (self.has_entry(h)
                        <==> old(self).has_entry(h)) by {
                        if self.has_entry(h) {
                            let w1 = choose|w1: int|
                                0 <= w1 < self.entries_view().len() && self.entries_view()[
                                    w1
                                ].input_hash@ == h;
                            let w0 = if w1 < i as int {
                                w1
                            } else {
                                w1 + 1
                            };
                            assert(self.entries_view()[w1] == before[w0]);
                        }
                        if old(self).has_entry(h) {
                            let w2 = choose|w2: int|
                                0 <= w2 < before.len() && before[w2].input_hash@ == h;
                            assert(w2 != i as int);
                            let w3 = if w2 < i as int {
                                w2
                            } else {
                                w2 - 1
                            };
                            assert(self.entries_view()[w3] == before[w2]);
                        }
                    }
                }
                return ;
            }
            i = i + 1;
        }
        proof {
            assert(!self.has_entry(input_hash@));
        }
    }

    /// Drop every entry.
    pub fn clear(&mut self)
        ensures
            final(self).inv(),
            final(self).dir_view() == old(self).dir_view(),
            forall|h: Seq<char>| !final(self).has_entry(h),
    {
        self.entries.clear();
        proof {
            assert forall|h: Seq<char>| !self.has_entry(h) by {
                assert(self.entries_view().len() == 0);
            }
        }
    }

    /// Compute the input fingerprint of a prompt: a digest over the raw
    /// prompt text, the already-computed fingerprints of its imports
    /// (canonically ordered), the model parameters, and the language and
    /// framework. Any change to any of these, or to anything upstream of
    /// an import, changes the text being digested.
    pub fn compute_input_hash(
        prompt_content: &str,
        import_hashes: &Vec<(String, String)>,
        model: &str,
        temperature_milli: u32,
        seed: Option<u64>,
        language: &str,
        framework: Option<&String>,
    ) -> (r: String)
        ensures
            r@ == spec_fingerprint(
                prompt_content@,
                pair_views(import_hashes@),
                model@,
                temperature_milli,
                seed,
                language@,
                opt_str_view(framework),
            ),
            r@.len() == 64,
    {
        let mut text = String::new();
        proof {
            reveal_strlit("lit-cache-v1\n");
            reveal_strlit("\n---imports---\n");
            reveal_strlit("---model---\n");
            reveal_strlit("---lang---\n");
            reveal_strlit("temp:");
            reveal_strlit("seed:");
            reveal_strlit("\n");
            reveal_strlit(":");
            assert("lit-cache-v1\n"@ =~= version_tag());
            assert("\n---imports---\n"@ =~= imports_header());
            assert("---model---\n"@ =~= model_header());
            assert("---lang---\n"@ =~= lang_header());
            assert("temp:"@ =~= temp_label());
            assert("seed:"@ =~= seed_label());
            assert("\n"@ =~= seq!['\n']);
            assert(":"@ =~= seq![':']);
        }
        text.append("lit-cache-v1\n");
        text.append(prompt_content);
        text.append("\n---imports---\n");
        // Copy and canonically sort the import pairs.
        let mut pairs: Vec<(String, String)> = Vec::new();
        let m: usize = import_hashes.len();
        let mut q: usize = 0;
        while q < m
            invariant
                m == import_hashes@.len(),
                q <= m,
                pairs@.len() == q,
                forall|t: int|
                    0 <= t < q ==> (#[trigger] pairs@[t]).0@ == import_hashes@[t].0@ && pairs@[
                        t
                    ].1@ == import_hashes@[t].1@,
            decreases m - q,
        {
            let pa = crate::textutil::str_copy(import_hashes[q].0.as_str());
            let pb = crate::textutil::str_copy(import_hashes[q].1.as_str());
            pairs.push((pa, pb));
            q = q + 1;
        }
        proof {
            assert forall|t: int| 0 <= t < m implies pair_views(pairs@)[t] == pair_views(
                import_hashes@,
            )[t] by {
                assert(pair_views(pairs@)[t] == ((pairs@[t]).0@, (pairs@[t]).1@));
                assert(pair_views(import_hashes@)[t] == ((import_hashes@[t]).0@, (
                import_hashes@[t]).1@));
            }
            assert(pair_views(pairs@) =~= pair_views(import_hashes@));
        }
        let sorted = sort_pairs(pairs);
        proof {
            lemma_pair_leq_total_ordering();
            pair_views(import_hashes@).lemma_sort_by_ensures(pair_leq());
            vstd::seq_lib::lemma_sorted_unique(
                pair_views(sorted@),
                canon_imports(pair_views(import_hashes@)),
                pair_leq(),
            );
        }
        let sn: usize = sorted.len();
        let mut si: usize = 0;
        while si < sn
            invariant
                sn == sorted@.len(),
                si <= sn,
                "\n"@ == seq!['\n'],
                ":"@ == seq![':'],
                text@ == version_tag() + prompt_content@ + imports_header() + imports_lines(
                    pair_views(sorted@).take(si as int),
                ),
            decreases sn - si,
        {
            let ghost done: Seq<(Seq<char>, Seq<char>)> = pair_views(sorted@).take(si as int);
            text.append(sorted[si].0.as_str());
            text.append(":");
            text.append(sorted[si].1.as_str());
            text.append("\n");
            proof {
                lemma_imports_lines_push(pair_views(sorted@), si as int);
                assert(pair_views(sorted@)[si as int] == (sorted@[si as int].0@, sorted@[
                    si as int
                ].1@));
                assert(text@ =~= version_tag() + prompt_content@ + imports_header()
                    + imports_lines(pair_views(sorted@).take(si + 1)));
            }
            si = si + 1;
        }
        proof {
            assert(pair_views(sorted@).take(sn as int) =~= pair_views(sorted@));
        }
        text.append("---model---\n");
        text.append(model);
        text.append("\n");
        text.append("temp:");
        let temp_str = crate::numfmt::u64_to_string(temperature_milli as u64);
        text.append(temp_str.as_str());
        text.append("\n");
        match seed {
            Some(sv) => {
                text.append("seed:");
                let seed_str = crate::numfmt::u64_to_string(sv);
                text.append(seed_str.as_str());
                text.append("\n");
            },
            None => {},
        }
        text.append("---lang---\n");
        text.append(language);
        text.append("\n");
        match framework {
            Some(fw) => {
                text.append(fw.as_str());
                text.append("\n");
            },
            None => {},
        }
        proof {
            assert(text@ =~= fingerprint_chars(
                prompt_content@,
                pair_views(import_hashes@),
                model@,
                temperature_milli,
                seed,
                language@,
                opt_str_view(framework),
            ));
        }
        let bytes = text.as_str().as_bytes_vec();
        proof {
            assert(bytes@ == encode_utf8(text@));
        }
        sha256_hex(&bytes)
    }
}

/// Appending one canonical import extends the lines by one.
proof fn lemma_imports_lines_push(s: Seq<(Seq<char>, Seq<char>)>, i: int)
    requires
        0 <= i < s.len(),
    ensures
        imports_lines(s.take(i + 1)) == imports_lines(s.take(i)) + s[i].0 + seq![':'] + s[i].1
            + seq!['\n'],
    decreases i,
{
    if i == 0 {
        assert(s.take(1).first() == s[0]);
        assert(s.take(1).drop_first() =~= s.take(0));
        assert(imports_lines(s.take(0)) =~= Seq::<char>::empty());
        assert(imports_lines(s.take(1)) =~= s[0].0 + seq![':'] + s[0].1 + seq!['\n']);
        assert(imports_lines(s.take(1)) =~= imports_lines(s.take(0)) + s[0].0 + seq![':']
            + s[0].1 + seq!['\n']);
    } else {
        lemma_imports_lines_push(s.drop_first(), i - 1);
        assert(s.take(i + 1).first() == s[0]);
        assert(s.take(i + 1).drop_first() =~= s.drop_first().take(i));
        assert(s.take(i).first() == s[0]);
        assert(s.take(i).drop_first() =~= s.drop_first().take(i - 1));
        assert(s.drop_first()[i - 1] == s[i]);
        assert(imports_lines(s.take(i + 1)) =~= s[0].0 + seq![':'] + s[0].1 + seq!['\n']
            + imports_lines(s.drop_first().take(i)));
        assert(imports_lines(s.take(i)) =~= s[0].0 + seq![':'] + s[0].1 + seq!['\n']
            + imports_lines(s.drop_first().take(i - 1)));
        assert(imports_lines(s.take(i + 1)) =~= imports_lines(s.take(i)) + s[i].0 + seq![':']
            + s[i].1 + seq!['\n']);
    }
}

/// Replacing the entry that already carries the fingerprint keeps the
/// store's shape.
proof fn lemma_put_update(before: Seq<CachedGeneration>, after: Seq<CachedGeneration>, i: int)
    requires
        0 <= i < before.len(),
        after == before.update(i, after[i]),
        forall|a: int, b: int|
            0 <= a < b < before.len() ==> before[a].input_hash@ != before[b].input_hash@,
        forall|k: int| 0 <= k < i ==> before[k].input_hash@ != after[i].input_hash@,
        before[i].input_hash@ == after[i].input_hash@,
    ensures
        forall|a: int, b: int|
            0 <= a < b < after.len() ==> after[a].input_hash@ != after[b].input_hash@,
{
    assert forall|a: int, b: int|
        0 <= a < b < after.len() implies after[a].input_hash@ != after[b].input_hash@ by {
        if a != i && b != i {
            assert(after[a] == before[a] && after[b] == before[b]);
        } else if a == i {
            assert(after[b] == before[b]);
            assert(before[i].input_hash@ != before[b].input_hash@);
        } else {
            assert(after[a] == before[a]);
            assert(before[a].input_hash@ != before[i].input_hash@);
        }
    }
}

/// Appending an entry with a fresh fingerprint keeps the store's shape.
proof fn lemma_put_push(before: Seq<CachedGeneration>, after: Seq<CachedGeneration>)
    requires
        after == before.push(after.last()),
        after.len() == before.len() + 1,
        forall|a: int, b: int|
            0 <= a < b < before.len() ==> before[a].input_hash@ != before[b].input_hash@,
        forall|k: int| 0 <= k < before.len() ==> before[k].input_hash@ != after.last().input_hash@,
    ensures
        forall|a: int, b: int|
            0 <= a < b < after.len() ==> after[a].input_hash@ != after[b].input_hash@,
{
    assert forall|a: int, b: int|
        0 <= a < b < after.len() implies after[a].input_hash@ != after[b].input_hash@ by {
        if b < before.len() {
            assert(after[a] == before[a] && after[b] == before[b]);
        } else {
            assert(after[a] == before[a]);
            assert(after[b] == after.last());
        }
    }
}

/// Removing the entry at `i` removes exactly that fingerprint.
proof fn lemma_remove_at(
    before: Seq<CachedGeneration>,
    after: Seq<CachedGeneration>,
    i: int,
    h: Seq<char>,
)
    requires
        0 <= i < before.len(),
        after == before.remove(i),
        forall|a: int, b: int|
            0 <= a < b < before.len() ==> before[a].input_hash@ != before[b].input_hash@,
        before[i].input_hash@ == h,
    ensures
        forall|a: int, b: int|
            0 <= a < b < after.len() ==> after[a].input_hash@ != after[b].input_hash@,
        forall|k: int| 0 <= k < after.len() ==> after[k].input_hash@ != h,
{
    assert forall|a: int, b: int|
        0 <= a < b < after.len() implies after[a].input_hash@ != after[b].input_hash@ by {
        let a0 = if a < i {
            a
        } else {
            a + 1
        };
        let b0 = if b < i {
            b
        } else {
            b + 1
        };
        assert(after[a] == before[a0] && after[b] == before[b0]);
    }
    assert forall|k: int| 0 <= k < after.len() implies after[k].input_hash@ != h by {
        let k0 = if k < i {
            k
        } else {
            k + 1
        };
        assert(after[k] == before[k0]);
        if k0 < i {
            assert(before[k0].input_hash@ != before[i].input_hash@);
        } else {
            assert(before[i].input_hash@ != before[k0].input_hash@);
        }
    }
}

} // verus!
