//! The `fat4n6` debug command, as text: argument handling, the indented tree
//! listing of a volume and its anomaly report. Reading the image file and
//! writing the text out are the caller's part; everything decided in between
//! is here.
use vstd::prelude::*;
use crate::audit::{
    anomalies_view, audit_reader, audit_spec, depth_left, is_dot_name, Anomaly, Severity,
    SpecAnomaly, MAX_DEPTH,
};
use crate::boot::variant_name;
use crate::error::{error_message, SpecFatError};
use crate::fs::{open_spec, read_dir_spec, FatFs, FileId, Node, SpecNode, Vol};
use crate::text::{dec_chars, push_dec};

verus! {

/// The usage text.
pub const USAGE: &'static str = "usage: fat4n6 [-V|--version] <image>";
/// Exit code of a completed run.
pub const EXIT_OK: i32 = 0;
/// Exit code when the image cannot be opened or read as a volume.
pub const EXIT_ERROR: i32 = 1;
/// Exit code of a usage error.
pub const EXIT_USAGE: i32 = 2;

/// What the command line leaves to do: exit with a code, or open the image
/// at the given path and hand its bytes to [`run_image`].
pub enum CliStep {
    /// Finish with this exit code.
    Exit(i32),
    /// Read the image at this path.
    Open(String),
}

/// Whether an argument asks for the version.
pub open spec fn is_version_flag(a: Seq<char>) -> bool {
    a == "-V"@ || a == "--version"@
}

/// Whether any argument asks for the version.
pub open spec fn wants_version(args: Seq<String>) -> bool {
    exists|i: int| 0 <= i < args.len() && is_version_flag(#[trigger] args[i]@)
}

/// The version line for version text `version`.
pub open spec fn version_line(version: Seq<char>) -> Seq<char> {
    "fat4n6 "@ + version + "\n"@
}

/// The usage line.
pub open spec fn usage_line() -> Seq<char> {
    USAGE@ + "\n"@
}

/// Parse `args` (the program name first): the version flag anywhere wins,
/// then a missing image path is a usage error; otherwise the path (the first
/// argument after the program name) is to be opened. Text goes to `out`.
pub fn run_args(args: &[String], version: &str, out: &mut String) -> (r: CliStep)
    ensures
        wants_version(args@) ==> r == CliStep::Exit(EXIT_OK)
            && final(out)@ == old(out)@ + version_line(version@),
        !wants_version(args@) && args@.len() < 2 ==> r == CliStep::Exit(EXIT_USAGE)
            && final(out)@ == old(out)@ + usage_line(),
        !wants_version(args@) && args@.len() >= 2 ==> (r matches CliStep::Open(p)
            && p@ == args@[1]@) && final(out)@ == old(out)@,
{
    let short = String::from_str("-V");
    let long = String::from_str("--version");
    proof {
        reveal_strlit("-V");
        reveal_strlit("--version");
    }
    let mut i: usize = 0;
    while i < args.len()
        invariant
            i <= args@.len(),
            short@ == "-V"@,
            long@ == "--version"@,
            forall|k: int| 0 <= k < i ==> !is_version_flag(#[trigger] args@[k]@),
            out@ == old(out)@,
        decreases args@.len() - i,
    {
        if args[i] == short || args[i] == long {
            assert(is_version_flag(args@[i as int]@));
            out.append("fat4n6 ");
            out.append(version);
            out.append("\n");
            assert(out@ =~= old(out)@ + version_line(version@));
            return CliStep::Exit(EXIT_OK);
        }
        i = i + 1;
    }
    assert(!wants_version(args@));
    if args.len() < 2 {
        out.append(USAGE);
        out.append("\n");
        assert(out@ =~= old(out)@ + usage_line());
        return CliStep::Exit(EXIT_USAGE);
    }
    CliStep::Open(args[1].clone())
}

/// The `{:?}` rendering of a severity.
pub open spec fn severity_name(s: Severity) -> Seq<char> {
    match s {
        Severity::Info => "Info"@,
        Severity::Low => "Low"@,
        Severity::Medium => "Medium"@,
        Severity::High => "High"@,
        Severity::Critical => "Critical"@,
    }
}

/// The `{:?}` rendering of a severity.
fn severity_str(s: Severity) -> (r: &'static str)
    ensures
        r@ == severity_name(s),
{
    match s {
        Severity::Info => "Info",
        Severity::Low => "Low",
        Severity::Medium => "Medium",
        Severity::High => "High",
        Severity::Critical => "Critical",
    }
}

/// Two spaces per level, `depth + 1` levels.
pub open spec fn indent(depth: nat) -> Seq<char>
    decreases depth,
{
    if depth == 0 {
        "  "@
    } else {
        indent((depth - 1) as nat) + "  "@
    }
}

/// The listing line of node `n` at `depth`: a directory as `name/`, a file as
/// `name (size bytes)`, either followed by ` (deleted)` when deleted.
pub open spec fn node_line(n: SpecNode, depth: nat) -> Seq<char> {
    let mark = if n.is_deleted { " (deleted)"@ } else { Seq::empty() };
    if n.is_dir {
        indent(depth) + n.name + "/"@ + mark + "\n"@
    } else {
        indent(depth) + n.name + " ("@ + dec_chars(n.size as nat) + " bytes)"@ + mark + "\n"@
    }
}

/// Whether the listing shows node `n` (not `.`, `..` or the volume label).
pub open spec fn listed(n: SpecNode) -> bool {
    !is_dot_name(n.name) && !n.is_volume_label
}

/// The listing of directory `dir` at `depth`: each shown node's line, a
/// directory that is not deleted followed by its own listing one level
/// deeper; nothing at depth [`MAX_DEPTH`] or for a directory that cannot be
/// read.
pub open spec fn list_spec(v: Vol, dir: FileId, depth: nat) -> Seq<char>
    decreases depth_left(depth), 1nat, 0nat,
{
    if depth >= MAX_DEPTH {
        Seq::empty()
    } else {
        match read_dir_spec(v, dir) {
            Err(_) => Seq::empty(),
            Ok(ns) => list_nodes(v, ns, depth),
        }
    }
}

/// The listing of the nodes `ns` of a directory at `depth`.
pub open spec fn list_nodes(v: Vol, ns: Seq<SpecNode>, depth: nat) -> Seq<char>
    decreases depth_left(depth), 0nat, ns.len(),
{
    if ns.len() == 0 || depth >= MAX_DEPTH {
        Seq::empty()
    } else {
        let n = ns[0];
        let rest = list_nodes(v, ns.drop_first(), depth);
        if !listed(n) {
            rest
        } else if n.is_dir && !n.is_deleted {
            node_line(n, depth) + list_spec(v, n.id, depth + 1) + rest
        } else {
            node_line(n, depth) + rest
        }
    }
}

/// The indentation at `depth` is `2 * (depth + 1)` spaces.
pub proof fn lemma_indent_spaces(depth: nat)
    ensures
        indent(depth).len() == 2 * (depth + 1),
        forall|i: int| 0 <= i < indent(depth).len() ==> #[trigger] indent(depth)[i] == ' ',
    decreases depth,
{
    reveal_strlit("  ");
    if depth > 0 {
        lemma_indent_spaces((depth - 1) as nat);
        let a = indent((depth - 1) as nat);
        assert forall|i: int| 0 <= i < indent(depth).len() implies #[trigger] indent(depth)[i] == ' ' by {
            if i < a.len() {
                assert(indent(depth)[i] == a[i]);
            } else {
                assert(indent(depth)[i] == "  "@[i - a.len()]);
            }
        }
    }
}

/// The listing of a directory is its nodes' listings in order: node `j`
/// contributes nothing when it is `.`, `..` or the volume label, else its
/// line at `depth`, followed, for a directory that is not deleted, by that
/// directory's own listing one level deeper (`depth + 1`).
pub proof fn lemma_list_nodes_split(v: Vol, ns: Seq<SpecNode>, depth: nat, j: int)
    requires
        depth < MAX_DEPTH,
        0 <= j < ns.len(),
    ensures
        list_nodes(v, ns, depth) == list_nodes(v, ns.take(j), depth) + (if !listed(ns[j]) {
            Seq::<char>::empty()
        } else if ns[j].is_dir && !ns[j].is_deleted {
            node_line(ns[j], depth) + list_spec(v, ns[j].id, depth + 1)
        } else {
            node_line(ns[j], depth)
        }) + list_nodes(v, ns.skip(j + 1), depth),
    decreases j,
{
    let n = ns[0];
    let rest = ns.drop_first();
    if j == 0 {
        assert(ns.take(0) =~= Seq::<SpecNode>::empty());
        assert(ns.skip(1) =~= rest);
    } else {
        lemma_list_nodes_split(v, rest, depth, j - 1);
        assert(rest.take(j - 1) =~= ns.take(j).drop_first());
        assert(ns.take(j)[0] == n);
        assert(rest[j - 1] == ns[j]);
        assert(rest.skip(j) =~= ns.skip(j + 1));
    }
}

/// Append `depth + 1` levels of indentation.
fn push_indent(out: &mut String, depth: usize)
    ensures
        final(out)@ == old(out)@ + indent(depth as nat),
    decreases depth,
{
    if depth > 0 {
        push_indent(out, depth - 1);
    }
    out.append("  ");
    proof {
        reveal_strlit("  ");
        assert(final(out)@ =~= old(out)@ + indent(depth as nat));
    }
}

/// Append the listing line of `node` at `depth`.
fn push_node_line(out: &mut String, node: &Node, depth: usize)
    ensures
        final(out)@ == old(out)@ + node_line(node@, depth as nat),
{
    let ghost start = out@;
    push_indent(out, depth);
    out.append(node.name.as_str());
    if node.is_dir {
        out.append("/");
    } else {
        out.append(" (");
        push_dec(out, node.size);
        out.append(" bytes)");
    }
    if node.is_deleted {
        out.append(" (deleted)");
    }
    out.append("\n");
    proof {
        assert(out@ =~= start + node_line(node@, depth as nat));
    }
}

/// Append the listing of directory `dir` at `depth`.
fn list(fs: &FatFs, dir: FileId, depth: usize, out: &mut String)
    ensures
        final(out)@ == old(out)@ + list_spec(fs.vol(), dir, depth as nat),
    decreases depth_left(depth as nat), 1nat,
{
    let ghost v = fs.vol();
    if depth >= MAX_DEPTH {
        assert(out@ + Seq::<char>::empty() =~= out@);
        return;
    }
    let nodes = match fs.read_dir(dir) {
        Ok(ns) => ns,
        Err(_) => {
            assert(out@ + Seq::<char>::empty() =~= out@);
            return;
        },
    };
    let ghost ns = nodes@.map_values(|n: Node| n@);
    let ghost start = out@;
    let dot = String::from_str(".");
    let dotdot = String::from_str("..");
    proof {
        reveal_strlit(".");
        reveal_strlit("..");
    }
    let mut i: usize = 0;
    assert(ns.skip(0) =~= ns);
    while i < nodes.len()
        invariant
            v == fs.vol(),
            depth < MAX_DEPTH,
            ns == nodes@.map_values(|n: Node| n@),
            i <= nodes@.len(),
            dot@ == "."@,
            dotdot@ == ".."@,
            start + list_nodes(v, ns, depth as nat) == out@ + list_nodes(
                v,
                ns.skip(i as int),
                depth as nat,
            ),
        decreases nodes@.len() - i,
    {
        let node = &nodes[i];
        let ghost rest = ns.skip(i as int);
        let ghost rest1 = ns.skip(i + 1);
        let ghost before = out@;
        assert(rest[0] == node@);
        assert(rest.drop_first() =~= rest1);
        if node.name == dot || node.name == dotdot || node.is_volume_label {
            assert(!listed(node@));
        } else if node.is_dir && !node.is_deleted {
            push_node_line(out, node, depth);
            list(fs, node.id, depth + 1, out);
            proof {
                assert(listed(node@));
                assert(before + (node_line(node@, depth as nat) + list_spec(v, node@.id, (depth + 1) as nat)
                    + list_nodes(v, rest1, depth as nat)) =~= out@ + list_nodes(v, rest1, depth as nat));
            }
        } else {
            push_node_line(out, node, depth);
            proof {
                assert(listed(node@));
                assert(before + (node_line(node@, depth as nat) + list_nodes(v, rest1, depth as nat))
                    =~= out@ + list_nodes(v, rest1, depth as nat));
            }
        }
        i = i + 1;
    }
    proof {
        assert(ns.skip(i as int) =~= Seq::<SpecNode>::empty());
        assert(out@ + Seq::<char>::empty() =~= out@);
    }
}

/// The report line of one anomaly: `  [Severity] CODE: note`.
pub open spec fn anomaly_line(a: SpecAnomaly) -> Seq<char> {
    "  ["@ + severity_name(a.severity) + "] "@ + a.code + ": "@ + a.note + "\n"@
}

/// The report lines of the anomalies `xs`, in order.
pub open spec fn anomaly_lines(xs: Seq<SpecAnomaly>) -> Seq<char>
    decreases xs.len(),
{
    if xs.len() == 0 {
        Seq::empty()
    } else {
        anomaly_line(xs[0]) + anomaly_lines(xs.drop_first())
    }
}

/// The anomaly section body: `  (none)` for a clean volume, one line per
/// anomaly otherwise, or the audit's error.
pub open spec fn audit_text(a: Result<Seq<SpecAnomaly>, SpecFatError>) -> Seq<char> {
    match a {
        Ok(xs) => if xs.len() == 0 {
            "  (none)\n"@
        } else {
            anomaly_lines(xs)
        },
        Err(e) => "  audit error: "@ + error_message(e) + "\n"@,
    }
}

/// The full report of a volume that opened as `v` and audited as `a`.
pub open spec fn report_spec(v: Vol, a: Result<Seq<SpecAnomaly>, SpecFatError>) -> Seq<char> {
    "variant: "@ + variant_name(v.geom.variant) + "\nfiles:\n"@ + list_spec(v, FileId::Root, 0)
        + "anomalies:\n"@ + audit_text(a)
}

/// The text printed when the image does not open as a volume.
pub open spec fn open_error_text(e: SpecFatError) -> Seq<char> {
    "error: not a FAT/exFAT volume: "@ + error_message(e) + "\n"@
}

/// Append the report lines of `xs`.
fn push_anomaly_lines(out: &mut String, xs: &Vec<Anomaly>)
    ensures
        final(out)@ == old(out)@ + anomaly_lines(anomalies_view(xs@)),
{
    let ghost all = anomalies_view(xs@);
    let ghost start = out@;
    let mut i: usize = 0;
    assert(all.skip(0) =~= all);
    while i < xs.len()
        invariant
            all == anomalies_view(xs@),
            i <= xs@.len(),
            start + anomaly_lines(all) == out@ + anomaly_lines(all.skip(i as int)),
        decreases xs@.len() - i,
    {
        let a = &xs[i];
        let ghost rest = all.skip(i as int);
        let ghost before = out@;
        assert(rest[0] == a@);
        assert(rest.drop_first() =~= all.skip(i + 1));
        out.append("  [");
        out.append(severity_str(a.severity));
        out.append("] ");
        out.append(a.code);
        out.append(": ");
        out.append(a.note.as_str());
        out.append("\n");
        proof {
            assert(out@ =~= before + anomaly_line(a@));
            assert(before + anomaly_lines(rest) =~= out@ + anomaly_lines(all.skip(i + 1)));
        }
        i = i + 1;
    }
    proof {
        assert(all.skip(i as int) =~= Seq::<SpecAnomaly>::empty());
        assert(out@ + Seq::<char>::empty() =~= out@);
    }
}

/// List the tree of the volume image and audit it, appending the report to
/// `out`. Returns the exit code: 0 after a report, 1 when the image does not
/// open as a volume.
pub fn run_image(image: Vec<u8>, out: &mut String) -> (code: i32)
    ensures
        match open_spec(image@) {
            Ok(v) => code == EXIT_OK && final(out)@ == old(out)@ + report_spec(v, audit_spec(image@)),
            Err(e) => code == EXIT_ERROR && final(out)@ == old(out)@ + open_error_text(e),
        },
{
    let ghost img = image@;
    let audit = audit_reader(image.as_slice());
    let fs = match FatFs::open(image) {
        Ok(fs) => fs,
        Err(e) => {
            out.append("error: not a FAT/exFAT volume: ");
            out.append(e.message().as_str());
            out.append("\n");
            return EXIT_ERROR;
        },
    };
    let ghost start = out@;
    out.append("variant: ");
    out.append(fs.variant().name());
    out.append("\nfiles:\n");
    let ghost mid = out@;
    list(&fs, fs.root(), 0, out);
    out.append("anomalies:\n");
    let ghost before_audit = out@;
    match audit {
        Ok(anoms) => {
            if anoms.len() == 0 {
                out.append("  (none)\n");
                assert(anomalies_view(anoms@).len() == 0);
            } else {
                push_anomaly_lines(out, &anoms);
            }
        },
        Err(e) => {
            out.append("  audit error: ");
            out.append(e.message().as_str());
            out.append("\n");
        },
    }
    proof {
        assert(out@ =~= start + report_spec(fs.vol(), audit_spec(img)));
    }
    EXIT_OK
}

} // verus!
