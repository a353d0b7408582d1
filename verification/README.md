# capburn

A captcha recognizer: it learns to read captchas from images whose file names
hold the labels, and reads them. The character set and the captcha length are
parameters, or are detected from the dataset.

`src/` is the library, written in Verus. Every function states what it does in
`requires` and `ensures` clauses, and Verus proves it. `app/` is the program
around it: the command line, files, the network on Burn and whatever needs
floating point.

| Module      | What it holds                                                        |
|-------------|----------------------------------------------------------------------|
| `text`      | strings as sequences of characters: splitting, trimming, numbers     |
| `charset`   | alphabets: named sets, combinations, detection by families           |
| `codec`     | the `image` crate: decoding and scaling                              |
| `canvas`    | background, pixel statistics, the padded canvas of the `fit` mode    |
| `image_ops` | from image files to model input                                      |
| `model`     | recognition heads, configurations and versions                       |
| `decode`    | from per-step classes to class sequences: CTC and fixed heads        |
| `inference` | from a stored configuration and network output to text               |
| `request`   | checks on what a web server hands in: sizes, base64, data-URLs       |
| `data`      | labels from file names, datasets, shuffling, batches                 |
| `counts`    | sorted count tables and rankings                                     |
| `detect`    | detection of format and geometry, recommendations                    |
| `plan`      | from command-line settings to a training configuration               |
| `training`  | checks, seeds, scores, batches and the loop of a training run        |
| `score`     | comparing predictions with labels                                    |
| `eval`      | evaluation statistics, the report, the validation split              |

What the library relies on without proof are the contracts of the calls into
`image`, `base64`, `rand` and a few functions of the standard library. They are
marked `external_body` or `assume_specification`, and a comment above each says
what is claimed.

Functions named `law_…` state what holds of several functions together: that a
label that was encoded reads back, that CTC output of a given length can spell
every accepted label, that the evaluation recovers the validation split of a
training run, that the epoch on disk is the best one.
