use vstd::prelude::*;

verus! {

/// How a wallet scans the chain for its UTXOs.
#[derive(Clone, Copy, Debug, PartialEq, Eq, Structural)]
pub struct ScanConfig {
    /// How many keys past the known ones are watched.
    pub num_keys: u64,
    /// The height at which scanning starts.
    pub start_height: u64,
    /// Also watch symmetric keys seeded with the digest of a regular one.
    pub recover_from_sym_digest_keys: bool,
}

/// The scan configuration of a wallet being added.
///
/// A newly created wallet cannot have received anything yet, so it starts at
/// the node's tip (`tip_height`, which the caller fetches only for new
/// wallets); a restored wallet starts at the given height.
pub fn new_wallet_scan_config(num_keys: u64, start_height: u64, is_new: bool, tip_height: Option<u64>) -> (res: ScanConfig)
    requires
        is_new ==> tip_height is Some,
    ensures
        res.num_keys == num_keys,
        res.start_height == if is_new { tip_height->0 } else { start_height },
        !res.recover_from_sym_digest_keys,
{
    let start = if is_new {
        match tip_height {
            Some(t) => t,
            None => start_height,
        }
    } else {
        start_height
    };
    ScanConfig { num_keys, start_height: start, recover_from_sym_digest_keys: false }
}

/// Check the password given to export a wallet's mnemonic against the one
/// the configuration is encrypted with.
pub fn check_export_password(config_password: &Option<String>, password: &String) -> (res: Result<(), String>)
    ensures
        config_password is None ==> (res matches Err(e) && e@ == "password is not set"@),
        config_password matches Some(p) && p@ != password@ ==> (res matches Err(e) && e@ == "wrong password"@),
        config_password matches Some(p) && p@ == password@ ==> res is Ok,
{
    match config_password {
        None => Err(String::from_str("password is not set")),
        Some(p) => {
            if p.eq(password) {
                Ok(())
            } else {
                Err(String::from_str("wrong password"))
            }
        },
    }
}

/// A file of cached blocks.
#[derive(Debug)]
pub struct CacheFile {
    /// The network the blocks belong to.
    pub network: String,
    /// The heights of the first and last cached block.
    pub range: (i64, i64),
}

/// Files that may be listed for deletion: all but those of the current
/// network that hold blocks above the height the wallet has synced to.
pub open spec fn listed_cache_file(f: CacheFile, network: Seq<char>, synced_height: u64) -> bool {
    !(f.network@ == network && f.range.1 > synced_height as i64)
}

/// Keep the cache files that may be listed for deletion, in their order.
pub fn cache_files_to_list(files: Vec<CacheFile>, network: &String, synced_height: u64) -> (res: Vec<CacheFile>)
    ensures
        res@ == files@.filter(|f: CacheFile| listed_cache_file(f, network@, synced_height)),
{
    let ghost all = files@;
    let mut files = files;
    let mut res: Vec<CacheFile> = Vec::new();
    let n = files.len();
    let mut i: usize = 0;
    while i < n
        invariant
            n == all.len(),
            i <= n,
            files@ == all.skip(i as int),
            res@ == all.take(i as int).filter(|f: CacheFile| listed_cache_file(f, network@, synced_height)),
        decreases n - i,
    {
        let f = files.remove(0);
        proof {
            assert(f == all[i as int]);
            assert(files@ =~= all.skip(i as int + 1));
            assert(all.take(i as int + 1) =~= all.take(i as int).push(f));
            all.take(i as int).lemma_filter_push(f, |f: CacheFile| listed_cache_file(f, network@, synced_height));
        }
        let drop = f.network == *network && f.range.1 > synced_height as i64;
        if !drop {
            res.push(f);
        }
        i = i + 1;
    }
    assert(all.take(n as int) =~= all);
    res
}

/// Unicode white space, as `char::is_whitespace` defines it (the
/// `White_Space` property).
pub open spec fn is_white_space(c: char) -> bool {
    ||| '\u{9}' <= c <= '\u{d}'
    ||| c == ' '
    ||| c == '\u{85}'
    ||| c == '\u{a0}'
    ||| c == '\u{1680}'
    ||| '\u{2000}' <= c <= '\u{200a}'
    ||| c == '\u{2028}'
    ||| c == '\u{2029}'
    ||| c == '\u{202f}'
    ||| c == '\u{205f}'
    ||| c == '\u{3000}'
}

fn white_space(c: char) -> (res: bool)
    ensures
        res == is_white_space(c),
{
    ('\u{9}' <= c && c <= '\u{d}') || c == ' ' || c == '\u{85}' || c == '\u{a0}' || c == '\u{1680}'
        || ('\u{2000}' <= c && c <= '\u{200a}') || c == '\u{2028}' || c == '\u{2029}' || c == '\u{202f}'
        || c == '\u{205f}' || c == '\u{3000}'
}

/// The words of `s`: its maximal runs of characters that are not white
/// space, in order.
pub open spec fn words(s: Seq<char>) -> Seq<Seq<char>>
    decreases s.len(),
{
    if s.len() == 0 {
        Seq::empty()
    } else if is_white_space(s.last()) {
        words(s.drop_last())
    } else if s.len() == 1 || is_white_space(s[s.len() - 2]) {
        words(s.drop_last()).push(seq![s.last()])
    } else {
        let w = words(s.drop_last());
        w.update(w.len() - 1, w.last().push(s.last()))
    }
}

/// The views of a list of strings.
pub open spec fn string_views(v: Seq<String>) -> Seq<Seq<char>> {
    v.map_values(|w: String| w@)
}

/// Split a mnemonic phrase into its words.
pub fn mnemonic_words(s: &str) -> (res: Vec<String>)
    ensures
        string_views(res@) == words(s@),
{
    let n = s.unicode_len();
    let mut res: Vec<String> = Vec::new();
    let mut cur: Option<usize> = None;
    let mut i: usize = 0;
    while i < n
        invariant
            n == s@.len(),
            i <= n,
            cur matches Some(st) ==> st < i && !is_white_space(s@[i - 1]),
            cur is None ==> (i == 0 || is_white_space(s@[i - 1])),
            cur is None ==> string_views(res@) == words(s@.take(i as int)),
            cur matches Some(st) ==> string_views(res@).push(s@.subrange(st as int, i as int)) == words(s@.take(i as int)),
        decreases n - i,
    {
        let c = s.get_char(i);
        let ghost t = s@.take(i as int + 1);
        proof {
            assert(t.drop_last() =~= s@.take(i as int));
            assert(t.last() == c);
            if i > 0 {
                assert(t[t.len() - 2] == s@[i - 1]);
            }
        }
        if white_space(c) {
            match cur {
                Some(st) => {
                    let w = s.substring_char(st, i).to_owned();
                    let ghost before = res@;
                    res.push(w);
                    assert(string_views(res@) =~= string_views(before).push(s@.subrange(st as int, i as int)));
                },
                None => {},
            }
            cur = None;
        } else {
            match cur {
                Some(st) => {
                    proof {
                        let w = words(s@.take(i as int));
                        assert(w.last() == s@.subrange(st as int, i as int));
                        assert(s@.subrange(st as int, i as int + 1) =~= s@.subrange(st as int, i as int).push(c));
                        assert(string_views(res@).push(s@.subrange(st as int, i as int + 1)) =~= w.update(
                            w.len() - 1,
                            w.last().push(c),
                        ));
                    }
                },
                None => {
                    proof {
                        assert(s@.subrange(i as int, i as int + 1) =~= seq![c]);
                    }
                    cur = Some(i);
                },
            }
        }
        i = i + 1;
    }
    assert(s@.take(n as int) =~= s@);
    match cur {
        Some(st) => {
            let w = s.substring_char(st, n).to_owned();
            let ghost before = res@;
            res.push(w);
            assert(string_views(res@) =~= string_views(before).push(s@.subrange(st as int, n as int)));
        },
        None => {},
    }
    res
}

} // verus!
