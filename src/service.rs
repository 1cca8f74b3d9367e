use vstd::prelude::*;

verus! {

/// A request to tag a prompt.
pub struct PromptInput {
    pub prompt: String,
    /// Whether to return the stock quality-boosting tags as well.
    pub include_positive: Option<bool>,
    /// Whether to return the stock tags to steer away from as well.
    pub include_negative: Option<bool>,
}

/// The answer to a tagging request.
pub struct GenerateTagsResponse {
    pub positive: Option<Vec<&'static str>>,
    pub tags: Vec<String>,
    pub negative: Option<Vec<&'static str>>,
}

pub open spec fn str_views(s: Seq<&'static str>) -> Seq<Seq<char>> {
    s.map_values(|x: &'static str| x@)
}

pub open spec fn positive_list() -> Seq<Seq<char>> {
    seq![
        "masterpiece"@,
        "best quality"@,
        "very aesthetic"@,
        "absurdres"@,
        "amazing quality"@,
    ]
}

pub open spec fn negative_list() -> Seq<Seq<char>> {
    seq![
        "bad quality"@,
        "worst quality"@,
        "worst detail"@,
        "bad hands"@,
        "bad anatomy"@,
        "extra fingers"@,
    ]
}

/// Stock tags that raise the quality of a generated image.
pub fn positive_tags() -> (r: Vec<&'static str>)
    ensures
        str_views(r@) == positive_list(),
{
    let r = vec!["masterpiece", "best quality", "very aesthetic", "absurdres", "amazing quality"];
    assert(str_views(r@) =~= positive_list());
    r
}

/// Stock tags describing defects to steer away from.
pub fn negative_tags() -> (r: Vec<&'static str>)
    ensures
        str_views(r@) == negative_list(),
{
    let r = vec![
        "bad quality",
        "worst quality",
        "worst detail",
        "bad hands",
        "bad anatomy",
        "extra fingers",
    ];
    assert(str_views(r@) =~= negative_list());
    r
}

impl GenerateTagsResponse {
    /// The answer for the validated `tags`, with each stock list present exactly when it was
    /// asked for with `Some(true)`.
    pub fn new(tags: Vec<String>, include_positive: Option<bool>, include_negative: Option<bool>) -> (r: Self)
        ensures
            r.tags@ == tags@,
            r.positive is Some <==> include_positive == Some(true),
            r.positive matches Some(p) ==> str_views(p@) == positive_list(),
            r.negative is Some <==> include_negative == Some(true),
            r.negative matches Some(n) ==> str_views(n@) == negative_list(),
    {
        let positive = match include_positive {
            Some(true) => Some(positive_tags()),
            _ => None,
        };
        let negative = match include_negative {
            Some(true) => Some(negative_tags()),
            _ => None,
        };
        GenerateTagsResponse { positive, tags, negative }
    }
}

} // verus!
