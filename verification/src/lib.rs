/// Unsigned decimal numbers, read as `str::parse::<usize>` reads them.
pub mod decimal;
/// Whitespace, trimming and splitting of text lines.
pub mod text;
/// Command-line settings of the kernel benchmarks (2MM, correlation).
pub mod polybench;
/// Header lines of the kernel datasets (`dims,...`, `coeff,...`, block tags).
pub mod dataset;
/// Integer side of the k-means benchmark: its settings, cluster sizes, and
/// the majority relabelling of clusters.
pub mod kmeans;
/// Confusion counts behind accuracy, precision, recall and F1.
pub mod metrics;
