# wasimlarth

The integer and text logic of a suite of benchmark kernels (k-means
clustering with its evaluation metrics, the 2MM and correlation kernels),
verified with Verus.

- `src/` is the verified library: argument parsing, decimal parsing,
  trimming and splitting of dataset header lines, k-means cluster sizes,
  the majority mapping of clusters to labels and relabelling, and the
  confusion counts that accuracy, precision, recall and F1 are computed
  from. Laws proved there include that the majority mapping maximizes the
  number of correct predictions over all cluster-to-label mappings, that
  cluster sizes add up to the number of points, and that the true positives
  of all classes add up to the correct predictions.
- `app/` is the command-line driver (`kmeans`, `2mm`, `correlation`): file
  reading, the floating-point kernels and the JSON output.
- `tests/` runs the library on concrete inputs.
