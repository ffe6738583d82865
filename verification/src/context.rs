//! What a check of a link goes by: the configuration, the files on disk,
//! and the headers for the requests.

use crate::config::{any_matches, pairs_view, patterns, Config, HttpHeader};
use crate::hashed_regex::{regex_is_match, HashedRegex};
use crate::links::Link;
use crate::validation::{is_remote, is_web_link, url_parts_of, CustomValidation, FileTree, Options};
use vstd::prelude::*;

verus! {

/// The contextual information of the checks.
pub struct Context<'a, V: CustomValidation> {
    /// The configuration.
    pub cfg: &'a Config,
    /// How links into the file system are resolved.
    pub filesystem_options: &'a Options,
    /// What is known of the files on disk.
    pub tree: &'a FileTree,
    /// The rule that a file on disk has to pass.
    pub custom_validation: &'a V,
    /// For each pattern of the configuration's `http_headers`, in their
    /// order, the headers to send with their values.
    pub interpolated_headers: &'a Vec<Vec<(String, String)>>,
}

/// The lists of headers as pairs of texts.
pub open spec fn header_lists(lists: Seq<Vec<(String, String)>>) -> Seq<Seq<(Seq<char>, Seq<char>)>> {
    lists.map_values(|l: Vec<(String, String)>| pairs_view(l@))
}

/// The headers of every pattern that matches `url`, in the order of the
/// patterns. A pattern without a list of headers adds none.
pub open spec fn headers_for(
    sites: Seq<Seq<char>>,
    lists: Seq<Seq<(Seq<char>, Seq<char>)>>,
    url: Seq<char>,
) -> Seq<(Seq<char>, Seq<char>)>
    decreases sites.len(),
{
    if sites.len() == 0 {
        Seq::empty()
    } else {
        let front = headers_for(sites.drop_last(), lists, url);
        if regex_is_match(sites.last(), url) && sites.len() <= lists.len() {
            front + lists[sites.len() - 1]
        } else {
            front
        }
    }
}

/// The patterns of the sites that get extra headers.
pub open spec fn site_patterns(cfg: Config) -> Seq<Seq<char>> {
    cfg.http_headers@.map_values(|e: (HashedRegex, Vec<HttpHeader>)| e.0@)
}

/// Whether the link `href` is skipped: it leads to the web and web links
/// are not followed, or one of the `exclude` patterns matches it.
pub open spec fn ignored(cfg: Config, href: Seq<char>) -> bool {
    (!cfg.follow_web_links && is_remote(url_parts_of(href))) || any_matches(
        patterns(cfg.exclude@),
        href,
    )
}

impl<'a, V: CustomValidation> Context<'a, V> {
    /// Should this link be skipped?
    pub fn should_ignore(&self, link: &Link) -> (skip: bool)
        ensures
            skip == ignored(*self.cfg, link.href@),
    {
        if !self.cfg.follow_web_links && is_web_link(link.href.as_str()) {
            return true;
        }
        self.cfg.should_skip(link.href.as_str())
    }

    /// The extra headers that are sent when `url` is checked.
    pub fn url_specific_headers(&self, url: &str) -> (headers: Vec<(String, String)>)
        ensures
            pairs_view(headers@) == headers_for(
                site_patterns(*self.cfg),
                header_lists(self.interpolated_headers@),
                url@,
            ),
    {
        let ghost sites = site_patterns(*self.cfg);
        let ghost lists = header_lists(self.interpolated_headers@);
        let mut headers: Vec<(String, String)> = Vec::new();
        let mut i: usize = 0;
        while i < self.cfg.http_headers.len()
            invariant
                i <= self.cfg.http_headers.len(),
                sites == site_patterns(*self.cfg),
                lists == header_lists(self.interpolated_headers@),
                pairs_view(headers@) == headers_for(sites.take(i as int), lists, url@),
            decreases self.cfg.http_headers.len() - i,
        {
            proof {
                assert(sites.take(i + 1).drop_last() =~= sites.take(i as int));
            }
            if self.cfg.http_headers[i].0.is_match(url) && i < self.interpolated_headers.len() {
                let list = &self.interpolated_headers[i];
                let ghost start = pairs_view(headers@);
                let mut k: usize = 0;
                while k < list.len()
                    invariant
                        k <= list.len(),
                        pairs_view(headers@) == start + pairs_view(list@).take(k as int),
                    decreases list.len() - k,
                {
                    let ghost before = pairs_view(headers@);
                    headers.push((list[k].0.clone(), list[k].1.clone()));
                    assert(pairs_view(headers@) =~= before.push((list@[k as int].0@, list@[k as int].1@)));
                    k += 1;
                }
            }
            i += 1;
        }
        assert(sites.take(sites.len() as int) =~= sites);
        headers
    }
}

} // verus!
