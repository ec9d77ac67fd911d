//! The text of reports: image references, link lists, dendrogram trees and
//! filled templates. Reading the templates and writing the results is left
//! to the caller.

use crate::clustering::{ClusteringOperation, Merge};
use crate::error::DiscoveryError;
use vstd::prelude::*;
use vstd::string::StringExecFns;

verus! {

/// Where the templates of a report lie, where its parts go, and how large
/// its images are.
#[derive(Debug)]
pub struct Templates {
    pub img_w: String,
    pub img_h: String,
    pub out_docs: String,
    pub out_images: String,
    pub out_audio: String,
    pub document: String,
    pub dendogram: String,
    pub figure: String,
    pub result_html: String,
    pub out_encoder: String,
}

/// The text in which every occurrence of `from` in `text` is replaced by
/// `to`, as `str::replace` does it.
pub uninterp spec fn replaced(text: Seq<char>, from: Seq<char>, to: Seq<char>) -> Seq<char>;

/// The PNG file of a gray scale image with eight bits to the pixel, as the
/// encoder of the `image` crate writes it.
pub uninterp spec fn png_gray(pixels: Seq<u8>, cols: u32, rows: u32) -> Seq<u8>;

/// Calls `str::replace` of the standard library, whose result depends on
/// the three texts alone.
#[verifier::external_body]
fn replace_all(text: &str, from: &str, to: &str) -> (r: String)
    ensures
        r@ == replaced(text@, from@, to@),
{
    text.replace(from, to)
}

/// Calls `image::png::PNGEncoder::encode` for a gray scale image with eight
/// bits to the pixel, writing into memory. The encoder compares the number
/// of pixels with `cols * rows` before it writes any of them, and fails
/// where the two differ; whether it succeeds where they agree is not
/// claimed. What it writes depends on the pixels and the two dimensions
/// alone. The encoder multiplies the dimensions as sizes and splits the
/// pixels into rows of `cols`, so `cols` is not zero and the products fit.
#[verifier::external_body]
fn encode_gray(pixels: &Vec<u8>, cols: u32, rows: u32) -> (r: Result<Vec<u8>, std::io::Error>)
    requires
        cols > 0,
        cols * 8 <= usize::MAX,
        cols * rows <= usize::MAX,
    ensures
        r matches Ok(bytes) ==> bytes@ == png_gray(pixels@, cols, rows),
        pixels@.len() != cols * rows ==> r is Err,
{
    let mut out: Vec<u8> = Vec::new();
    let encoder = image::png::PNGEncoder::new(&mut out);
    match encoder.encode(pixels.as_slice(), cols, rows, image::ColorType::Gray(8)) {
        Ok(()) => Ok(out),
        Err(e) => Err(e),
    }
}

/// The character of a decimal digit.
pub open spec fn digit(d: nat) -> char {
    if d == 0 {
        '0'
    } else if d == 1 {
        '1'
    } else if d == 2 {
        '2'
    } else if d == 3 {
        '3'
    } else if d == 4 {
        '4'
    } else if d == 5 {
        '5'
    } else if d == 6 {
        '6'
    } else if d == 7 {
        '7'
    } else if d == 8 {
        '8'
    } else {
        '9'
    }
}

/// A number in decimal digits.
pub open spec fn decimal(n: nat) -> Seq<char>
    decreases n,
{
    if n < 10 {
        seq![digit(n)]
    } else {
        decimal(n / 10).push(digit(n % 10))
    }
}

/// The text of one decimal digit.
fn digit_text(d: usize) -> (r: &'static str)
    requires
        d < 10,
    ensures
        r@ == seq![digit(d as nat)],
{
    proof {
        reveal_strlit("0");
        reveal_strlit("1");
        reveal_strlit("2");
        reveal_strlit("3");
        reveal_strlit("4");
        reveal_strlit("5");
        reveal_strlit("6");
        reveal_strlit("7");
        reveal_strlit("8");
        reveal_strlit("9");
    }
    let text: &'static str = if d == 0 {
        "0"
    } else if d == 1 {
        "1"
    } else if d == 2 {
        "2"
    } else if d == 3 {
        "3"
    } else if d == 4 {
        "4"
    } else if d == 5 {
        "5"
    } else if d == 6 {
        "6"
    } else if d == 7 {
        "7"
    } else if d == 8 {
        "8"
    } else {
        "9"
    };
    assert(text@ =~= seq![digit(d as nat)]);
    text
}

/// Writes a number in decimal digits.
pub fn number(n: usize) -> (r: String)
    ensures
        r@ == decimal(n as nat),
    decreases n,
{
    if n < 10 {
        String::from_str(digit_text(n))
    } else {
        let mut text = number(n / 10);
        text.append(digit_text(n % 10));
        assert(text@ =~= decimal((n / 10) as nat).push(digit((n % 10) as nat)));
        text
    }
}

/// The path of an image, seen from the documents.
pub open spec fn image_path(out_images: Seq<char>, name: Seq<char>) -> Seq<char> {
    "../"@ + out_images + "/"@ + name
}

/// A reference to an image, with the configured width and height or as wide
/// as the text.
pub open spec fn image_ref_spec(
    img_w: Seq<char>,
    img_h: Seq<char>,
    out_images: Seq<char>,
    name: Seq<char>,
    set_dim: bool,
) -> Seq<char> {
    if set_dim {
        "{\\includegraphics[width="@ + img_w + ", height="@ + img_h + "]{"@ + image_path(
            out_images,
            name,
        ) + "}}\n"@
    } else {
        "\\includegraphics[width=\\textwidth]{"@ + image_path(out_images, name) + "}\n"@
    }
}

/// One entry of a list of links to audio files.
pub open spec fn link_item(file: Seq<char>) -> Seq<char> {
    let p = "audio/"@ + file;
    "<li><a href=\""@ + p + "\" download="@ + p + ">"@ + p + "</a></li>\n"@
}

/// The entries for the first `upto` files.
pub open spec fn link_items(files: Seq<String>, upto: int) -> Seq<char>
    decreases upto,
{
    if upto <= 0 {
        Seq::empty()
    } else {
        link_items(files, upto - 1) + link_item(files[upto - 1]@)
    }
}

/// A list of links to audio files.
pub open spec fn link_list_spec(files: Seq<String>) -> Seq<char> {
    "<ul>"@ + link_items(files, files.len() as int) + "</ul>"@
}

/// The first `upto` texts, one behind the other.
pub open spec fn joined(parts: Seq<String>, upto: int) -> Seq<char>
    decreases upto,
{
    if upto <= 0 {
        Seq::empty()
    } else {
        joined(parts, upto - 1) + parts[upto - 1]@
    }
}

/// What a tree is drawn from: the size of the images, their folder and
/// their names.
pub struct TreeContext {
    pub img_w: Seq<char>,
    pub img_h: Seq<char>,
    pub out_images: Seq<char>,
    pub images: Seq<String>,
}

/// The tree of the merge `ops[t]`: its number above the trees of its two
/// sides. The tree of an instance is the reference to its image.
pub open spec fn tree_at(ctx: TreeContext, ops: Seq<ClusteringOperation>, t: int) -> Seq<char>
    decreases t, 1int,
{
    if t < 0 {
        Seq::empty()
    } else {
        let op = ops[t];
        let left = if op.operation == Merge::Sequence2Sequence || op.operation
            == Merge::Sequence2Cluster {
            image_ref_spec(
                ctx.img_w,
                ctx.img_h,
                ctx.out_images,
                ctx.images[op.merge_i as int]@,
                true,
            )
        } else {
            subtree_of(ctx, ops, t, op.merge_i)
        };
        let right = if op.operation == Merge::Sequence2Sequence || op.operation
            == Merge::Cluster2Sequence {
            image_ref_spec(
                ctx.img_w,
                ctx.img_h,
                ctx.out_images,
                ctx.images[op.merge_j as int]@,
                true,
            )
        } else {
            subtree_of(ctx, ops, t, op.merge_j)
        };
        "[."@ + decimal(op.into as nat) + " ["@ + left + " "@ + right + " ] ]"@
    }
}

/// The tree of the cluster `id` as of the first `upto` merges: that of the
/// last of them that led into `id`.
pub open spec fn subtree_of(
    ctx: TreeContext,
    ops: Seq<ClusteringOperation>,
    upto: int,
    id: usize,
) -> Seq<char>
    decreases upto, 0int,
{
    if upto <= 0 {
        Seq::empty()
    } else if ops[upto - 1].into == id {
        tree_at(ctx, ops, upto - 1)
    } else {
        subtree_of(ctx, ops, upto - 1, id)
    }
}

/// Whether one of the first `upto` merges led into `id`.
pub open spec fn has_tree(ops: Seq<ClusteringOperation>, upto: int, id: usize) -> bool {
    exists|u: int| 0 <= u < upto && u < ops.len() && (#[trigger] ops[u]).into == id
}

/// Every side of every merge can be drawn: an instance has an image, and a
/// cluster was made by an earlier merge.
pub open spec fn trees_defined(ops: Seq<ClusteringOperation>, n_images: int) -> bool {
    forall|t: int|
        0 <= t < ops.len() ==> {
            let op = #[trigger] ops[t];
            &&& if op.operation == Merge::Sequence2Sequence || op.operation
                == Merge::Sequence2Cluster {
                op.merge_i < n_images
            } else {
                has_tree(ops, t, op.merge_i)
            }
            &&& if op.operation == Merge::Sequence2Sequence || op.operation
                == Merge::Cluster2Sequence {
                op.merge_j < n_images
            } else {
                has_tree(ops, t, op.merge_j)
            }
        }
}

/// A copy of a text.
fn copy_of(text: &String) -> (r: String)
    ensures
        r@ == text@,
{
    String::from_str(text.as_str())
}

impl Templates {
    /// What the templates and the names of the images say about trees.
    pub open spec fn tree_context(&self, images: Seq<String>) -> TreeContext {
        TreeContext {
            img_w: self.img_w@,
            img_h: self.img_h@,
            out_images: self.out_images@,
            images,
        }
    }

    /// Latex image reference
    pub fn image_ref(&self, name: &str, set_dim: bool) -> (r: String)
        ensures
            r@ == image_ref_spec(self.img_w@, self.img_h@, self.out_images@, name@, set_dim),
    {
        let mut path = String::from_str("../");
        path.append(self.out_images.as_str());
        path.append("/");
        path.append(name);
        if set_dim {
            let mut text = String::from_str("{\\includegraphics[width=");
            text.append(self.img_w.as_str());
            text.append(", height=");
            text.append(self.img_h.as_str());
            text.append("]{");
            text.append(path.as_str());
            text.append("}}\n");
            text
        } else {
            let mut text = String::from_str("\\includegraphics[width=\\textwidth]{");
            text.append(path.as_str());
            text.append("}\n");
            text
        }
    }

    /// The list of links to the given audio files.
    pub fn link_list(files: &Vec<String>) -> (r: String)
        ensures
            r@ == link_list_spec(files@),
    {
        let mut text = String::from_str("<ul>");
        let mut i: usize = 0;
        while i < files.len()
            invariant
                i <= files@.len(),
                text@ == "<ul>"@ + link_items(files@, i as int),
            decreases files@.len() - i,
        {
            let mut p = String::from_str("audio/");
            p.append(files[i].as_str());
            let ghost before = text@;
            text.append("<li><a href=\"");
            text.append(p.as_str());
            text.append("\" download=");
            text.append(p.as_str());
            text.append(">");
            text.append(p.as_str());
            text.append("</a></li>\n");
            assert(text@ =~= before + link_item(files@[i as int]@));
            i = i + 1;
            assert(text@ =~= "<ul>"@ + link_items(files@, i as int));
        }
        text.append("</ul>");
        text
    }

    /// The page of results: the template with the list of the audio files
    /// of the clusters and the list of the files of the sub sequences in
    /// the places marked for them.
    pub fn html_page(template: &str, cluster_files: &Vec<String>, sub_sequence: &Vec<String>) -> (r:
        String)
        ensures
            r@ == replaced(
                replaced(template@, "[CLUSTERS_WAV]"@, link_list_spec(cluster_files@)),
                "[SUB_WAV]"@,
                link_list_spec(sub_sequence@),
            ),
    {
        let clusters = Templates::link_list(cluster_files);
        let sequences = Templates::link_list(sub_sequence);
        let filled = replace_all(template, "[CLUSTERS_WAV]", clusters.as_str());
        replace_all(filled.as_str(), "[SUB_WAV]", sequences.as_str())
    }

    /// The document: the template with the parts, one behind the other, in
    /// the place of its body.
    pub fn document_text(template: &str, parts: &Vec<String>) -> (r: String)
        ensures
            r@ == replaced(template@, "<body>"@, joined(parts@, parts@.len() as int)),
    {
        let mut body = String::from_str("");
        proof {
            reveal_strlit("");
            assert(body@ =~= joined(parts@, 0));
        }
        let mut i: usize = 0;
        while i < parts.len()
            invariant
                i <= parts@.len(),
                body@ == joined(parts@, i as int),
            decreases parts@.len() - i,
        {
            body.append(parts[i].as_str());
            i = i + 1;
        }
        replace_all(template, "<body>", body.as_str())
    }

    /// Set a tikz image
    pub fn tikz(template: &str, tree: &str) -> (r: String)
        ensures
            r@ == replaced(template@, "<tree>"@, tree@),
    {
        replace_all(template, "<tree>", tree)
    }

    /// Set a figure
    pub fn figure(template: &str, img_ref: &str, caption: &str) -> (r: String)
        ensures
            r@ == replaced(replaced(template@, "<img_ref>"@, img_ref@), "<caption>"@, caption@),
    {
        let tree_latex = replace_all(template, "<img_ref>", img_ref);
        replace_all(tree_latex.as_str(), "<caption>", caption)
    }

    /// The tree of a cluster as of the first `upto` merges.
    fn subtree(
        &self,
        operations: &Vec<ClusteringOperation>,
        images: &Vec<String>,
        trees: &Vec<String>,
        upto: usize,
        id: usize,
    ) -> (r: String)
        requires
            upto <= operations@.len(),
            upto <= trees@.len(),
            forall|t: int|
                0 <= t < upto ==> (#[trigger] trees@[t])@ == tree_at(
                    self.tree_context(images@),
                    operations@,
                    t,
                ),
        ensures
            r@ == subtree_of(self.tree_context(images@), operations@, upto as int, id),
    {
        let mut k: usize = upto;
        while k > 0
            invariant
                k <= upto <= operations@.len(),
                upto <= trees@.len(),
                subtree_of(self.tree_context(images@), operations@, upto as int, id) == subtree_of(
                    self.tree_context(images@),
                    operations@,
                    k as int,
                    id,
                ),
                forall|t: int|
                    0 <= t < upto ==> (#[trigger] trees@[t])@ == tree_at(
                        self.tree_context(images@),
                        operations@,
                        t,
                    ),
            decreases k,
        {
            if operations[k - 1].into == id {
                return copy_of(&trees[k - 1]);
            }
            k = k - 1;
        }
        let empty = String::from_str("");
        proof {
            reveal_strlit("");
            assert(empty@ =~= Seq::<char>::empty());
        }
        empty
    }

    /// The tree of every merge of a dendrogram, for drawing.
    pub fn dendogram_trees(
        &self,
        operations: &Vec<ClusteringOperation>,
        images: &Vec<String>,
    ) -> (r: Vec<String>)
        requires
            trees_defined(operations@, images@.len() as int),
        ensures
            r@.len() == operations@.len(),
            forall|t: int|
                0 <= t < operations@.len() ==> (#[trigger] r@[t])@ == tree_at(
                    self.tree_context(images@),
                    operations@,
                    t,
                ),
    {
        let mut trees: Vec<String> = Vec::new();
        let mut t: usize = 0;
        while t < operations.len()
            invariant
                t <= operations@.len(),
                trees@.len() == t,
                trees_defined(operations@, images@.len() as int),
                forall|u: int|
                    0 <= u < t ==> (#[trigger] trees@[u])@ == tree_at(
                        self.tree_context(images@),
                        operations@,
                        u,
                    ),
            decreases operations@.len() - t,
        {
            let op = operations[t];
            assert(operations@[t as int] == op);
            let left_is_leaf: bool = match op.operation {
                Merge::Sequence2Sequence => true,
                Merge::Sequence2Cluster => true,
                _ => false,
            };
            let right_is_leaf: bool = match op.operation {
                Merge::Sequence2Sequence => true,
                Merge::Cluster2Sequence => true,
                _ => false,
            };
            let left = if left_is_leaf {
                self.image_ref(images[op.merge_i].as_str(), true)
            } else {
                self.subtree(operations, images, &trees, t, op.merge_i)
            };
            let right = if right_is_leaf {
                self.image_ref(images[op.merge_j].as_str(), true)
            } else {
                self.subtree(operations, images, &trees, t, op.merge_j)
            };
            let mut tree = String::from_str("[.");
            tree.append(number(op.into).as_str());
            tree.append(" [");
            tree.append(left.as_str());
            tree.append(" ");
            tree.append(right.as_str());
            tree.append(" ] ]");
            assert(tree@ =~= tree_at(self.tree_context(images@), operations@, t as int));
            trees.push(tree);
            t = t + 1;
        }
        trees
    }

    /// The tree of a cluster after all merges, if a merge led into it.
    pub fn tree_of(
        operations: &Vec<ClusteringOperation>,
        trees: &Vec<String>,
        cluster: usize,
    ) -> (r: Option<String>)
        requires
            trees@.len() == operations@.len(),
        ensures
            r is Some <==> has_tree(operations@, operations@.len() as int, cluster),
            r matches Some(tree) ==> exists|u: int|
                0 <= u < operations@.len() && (#[trigger] operations@[u]).into == cluster && tree@
                    == trees@[u]@ && forall|w: int|
                    u < w < operations@.len() ==> (#[trigger] operations@[w]).into != cluster,
    {
        let mut k: usize = operations.len();
        while k > 0
            invariant
                k <= operations@.len(),
                trees@.len() == operations@.len(),
                forall|w: int|
                    k <= w < operations@.len() ==> (#[trigger] operations@[w]).into != cluster,
            decreases k,
        {
            if operations[k - 1].into == cluster {
                let tree = copy_of(&trees[k - 1]);
                assert(operations@[k - 1].into == cluster);
                return Some(tree);
            }
            k = k - 1;
        }
        None
    }

    /// The name of the file of an image beside the folder of the images,
    /// and the PNG file of a gray scale image of `rows` rows and `cols`
    /// columns. There is no file where the number of pixels is not
    /// `cols * rows`, nor where the encoder fails for a reason of its own.
    pub fn plot(&self, file: &str, pixels: &Vec<u8>, rows: u32, cols: u32) -> (r: Result<
        (String, Vec<u8>),
        DiscoveryError,
    >)
        requires
            cols > 0,
            cols * 8 <= usize::MAX,
            cols * rows <= usize::MAX,
        ensures
            r matches Ok(out) ==> out.0@ == self.out_images@ + "/"@ + file@ && out.1@ == png_gray(
                pixels@,
                cols,
                rows,
            ),
            r is Ok ==> pixels@.len() == cols * rows,
            pixels@.len() != cols * rows ==> r is Err,
    {
        let mut path = copy_of(&self.out_images);
        path.append("/");
        path.append(file);
        Templates::plotted(path, encode_gray(pixels, cols, rows))
    }

    /// What `plot` makes of the outcome of the encoder: the file with its
    /// name, or the error.
    pub fn plotted(path: String, encoded: Result<Vec<u8>, std::io::Error>) -> (r: Result<
        (String, Vec<u8>),
        DiscoveryError,
    >)
        ensures
            match encoded {
                Ok(bytes) => r matches Ok(out) && out.0@ == path@ && out.1@ == bytes@,
                Err(e) => r matches Err(DiscoveryError::IO(err)) && err == e,
            },
    {
        match encoded {
            Ok(bytes) => Ok((path, bytes)),
            Err(e) => Err(DiscoveryError::IO(e)),
        }
    }
}

} // verus!
